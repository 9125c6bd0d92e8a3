//! Assembling the index: per-package blobs of decoded record lines are
//! checked (every line must parse, every line must bear the blob's package
//! name) and grouped into one ordered version list per package. A failure
//! anywhere aborts the whole assembly.
use vstd::prelude::*;

verus! {

use vstd::pervasive::unreached;
use crate::record::{RawRecord, CrateVersion, record_parses, parsed_version_of, parse_record};
use crate::bytes::{bytes_eq, bytes_copy};

/// One package file: where it came from, and its lines after structural
/// decoding; `None` marks a line the decoder rejected.
pub struct Blob {
    pub source: Vec<u8>,
    pub lines: Vec<Option<RawRecord>>,
}

#[derive(Debug)]
pub enum IndexError {
    Parse { source: Vec<u8>, line: usize },
    Consistency { source: Vec<u8>, expected: Vec<u8>, found: Vec<u8>, line: usize },
}

/// The assembled index: one entry per package, each a non-empty record list
/// in file order under the package's name.
pub struct Index {
    pub entries: Vec<(Vec<u8>, Vec<CrateVersion>)>,
}

pub open spec fn index_wf(entries: Seq<(Vec<u8>, Vec<CrateVersion>)>) -> bool {
    &&& forall|i: int, j: int|
        0 <= i < j < entries.len() ==> (#[trigger] entries[i]).0@ != (#[trigger] entries[j]).0@
    &&& forall|i: int| 0 <= i < entries.len() ==> (#[trigger] entries[i]).1@.len() > 0
    &&& forall|i: int, j: int|
        0 <= i < entries.len() && 0 <= j < entries[i].1@.len() ==> (#[trigger] entries[i].1@[j]).name@
            == entries[i].0@
}

impl Index {
    pub open spec fn wf(&self) -> bool {
        index_wf(self.entries@)
    }
}

pub open spec fn index_has_key(entries: Seq<(Vec<u8>, Vec<CrateVersion>)>, n: Seq<u8>) -> bool {
    exists|i: int| 0 <= i < entries.len() && (#[trigger] entries[i]).0@ == n
}

/// The package name a decoded line bears.
pub open spec fn line_name(line: Option<RawRecord>) -> Seq<u8> {
    match line {
        Option::None => Seq::<u8>::empty(),
        Option::Some(raw) => raw.name@,
    }
}

/// The line failed decoding or record parsing.
pub open spec fn line_parse_fails(line: Option<RawRecord>) -> bool {
    match line {
        Option::None => true,
        Option::Some(raw) => !record_parses(raw),
    }
}

/// The line parses and bears the same name as the blob's first line.
pub open spec fn line_ok(b: Blob, l: int) -> bool {
    !line_parse_fails(b.lines@[l]) && line_name(b.lines@[l]) == line_name(b.lines@[0])
}

pub open spec fn blob_ok(b: Blob) -> bool {
    forall|l: int| 0 <= l < b.lines@.len() ==> line_ok(b, l)
}

pub open spec fn blobs_ok(blobs: Seq<Blob>) -> bool {
    forall|k: int| 0 <= k < blobs.len() ==> blob_ok(#[trigger] blobs[k])
}

/// The checked record carries exactly what the decoded line held.
pub open spec fn record_matches(line: Option<RawRecord>, c: CrateVersion) -> bool {
    match line {
        Option::None => false,
        Option::Some(raw) => record_parses(raw) && parsed_version_of(raw, c.vers@) && c.name@
            == raw.name@ && c.deps == raw.deps && c.cksum@ == raw.cksum@ && c.features
            == raw.features && c.yanked == raw.yanked,
    }
}

/// The blob yields the entry `(n, recs)`: one checked record per line, all
/// named `n`, in line order.
pub open spec fn blob_yields(b: Blob, n: Seq<u8>, recs: Seq<CrateVersion>) -> bool {
    &&& b.lines@.len() > 0
    &&& n == line_name(b.lines@[0])
    &&& recs.len() == b.lines@.len()
    &&& forall|l: int| 0 <= l < recs.len() ==> record_matches(b.lines@[l], #[trigger] recs[l])
    &&& forall|l: int| 0 <= l < recs.len() ==> (#[trigger] recs[l]).name@ == n
}

pub open spec fn blob_named(b: Blob, n: Seq<u8>) -> bool {
    b.lines@.len() > 0 && line_name(b.lines@[0]) == n
}

/// The entry comes from the last blob bearing its name.
pub open spec fn entry_from_blobs(e: (Vec<u8>, Vec<CrateVersion>), blobs: Seq<Blob>) -> bool {
    exists|k: int|
        0 <= k < blobs.len() && blob_yields(#[trigger] blobs[k], e.0@, e.1@) && (forall|k2: int|
            k < k2 < blobs.len() ==> !blob_named(#[trigger] blobs[k2], e.0@))
}

/// Every entry comes from the last blob with its name, and every non-empty
/// blob's name appears as a key.
pub open spec fn index_matches_blobs(
    entries: Seq<(Vec<u8>, Vec<CrateVersion>)>,
    blobs: Seq<Blob>,
) -> bool {
    &&& forall|i: int| 0 <= i < entries.len() ==> entry_from_blobs(#[trigger] entries[i], blobs)
    &&& forall|k: int|
        0 <= k < blobs.len() && (#[trigger] blobs[k]).lines@.len() > 0 ==> index_has_key(
            entries,
            line_name(blobs[k].lines@[0]),
        )
}

/// The error names a failing position among the blobs.
pub open spec fn err_witness(e: IndexError, blobs: Seq<Blob>) -> bool {
    match e {
        IndexError::Parse { source, line } => exists|k: int|
            0 <= k < blobs.len() && (#[trigger] blobs[k]).source@ == source@ && 0 <= line
                < blobs[k].lines@.len() && line_parse_fails(blobs[k].lines@[line as int]),
        IndexError::Consistency { source, expected, found, line } => exists|k: int|
            0 <= k < blobs.len() && (#[trigger] blobs[k]).source@ == source@ && 0 <= line
                < blobs[k].lines@.len() && !line_parse_fails(blobs[k].lines@[0])
                && !line_parse_fails(blobs[k].lines@[line as int]) && expected@ == line_name(
                blobs[k].lines@[0],
            ) && found@ == line_name(blobs[k].lines@[line as int]) && expected@ != found@,
    }
}

/// Check one blob: parse every line, then check that every record bears the
/// first record's name. An empty blob yields nothing.
fn parse_blob(b: Blob) -> (r: Result<Option<(Vec<u8>, Vec<CrateVersion>)>, IndexError>)
    ensures
        r is Ok <==> blob_ok(b),
        match r {
            Result::Ok(opt) => match opt {
                Option::Some(e) => blob_yields(b, e.0@, e.1@),
                Option::None => b.lines@.len() == 0,
            },
            Result::Err(e) => err_witness(e, seq![b]),
        },
{
    let Blob { source, lines } = b;
    let ghost all = lines@;
    let mut lines = lines;
    let mut recs: Vec<CrateVersion> = Vec::new();
    proof {
        assert(all.take(all.len() as int) =~= all);
    }
    while lines.len() > 0
        invariant
            lines@.len() <= all.len(),
            lines@ == all.take(lines@.len() as int),
            recs@.len() == all.len() - lines@.len(),
            source@ == b.source@,
            all == b.lines@,
            forall|l: int|
                0 <= l < recs@.len() ==> record_matches(
                    all[lines@.len() + l],
                    #[trigger] recs@[l],
                ),
        decreases lines.len(),
    {
        let ghost n = lines@.len() as int;
        let idx: usize = lines.len() - 1;
        let line = match lines.pop() {
            Option::Some(x) => x,
            Option::None => unreached(),
        };
        proof {
            assert(all.take(n).drop_last() =~= all.take(n - 1));
            assert(line == all[n - 1]);
        }
        match line {
            Option::None => {
                proof {
                    assert(seq![b][0] == b);
                    assert(line_parse_fails(b.lines@[idx as int]));
                    assert(!line_ok(b, idx as int));
                }
                return Result::Err(IndexError::Parse { source, line: idx });
            },
            Option::Some(raw) => {
                match parse_record(raw) {
                    Result::Ok(c) => {
                        recs.insert(0, c);
                    },
                    Result::Err(_) => {
                        proof {
                            assert(seq![b][0] == b);
                            assert(b.lines@[idx as int] == Option::Some(raw));
                            assert(line_parse_fails(b.lines@[idx as int]));
                            assert(!line_ok(b, idx as int));
                        }
                        return Result::Err(IndexError::Parse { source, line: idx });
                    },
                }
            },
        }
    }
    if recs.len() == 0 {
        return Result::Ok(Option::None);
    }
    let mut l: usize = 1;
    while l < recs.len()
        invariant
            1 <= l <= recs@.len(),
            recs@.len() == all.len(),
            source@ == b.source@,
            all == b.lines@,
            forall|l2: int| 0 <= l2 < recs@.len() ==> record_matches(all[l2], #[trigger] recs@[l2]),
            forall|k: int| 0 <= k < l ==> (#[trigger] recs@[k]).name@ == recs@[0].name@,
        decreases recs.len() - l,
    {
        if !bytes_eq(&recs[l].name, &recs[0].name) {
            let expected = bytes_copy(&recs[0].name);
            let found = bytes_copy(&recs[l].name);
            proof {
                assert(seq![b][0] == b);
                assert(record_matches(b.lines@[0], recs@[0]));
                assert(record_matches(b.lines@[l as int], recs@[l as int]));
                assert(!line_parse_fails(b.lines@[0]));
                assert(!line_parse_fails(b.lines@[l as int]));
                assert(line_name(b.lines@[0]) == recs@[0].name@);
                assert(line_name(b.lines@[l as int]) == recs@[l as int].name@);
                assert(!line_ok(b, l as int));
            }
            return Result::Err(
                IndexError::Consistency { source, expected, found, line: l },
            );
        }
        l = l + 1;
    }
    let n = bytes_copy(&recs[0].name);
    proof {
        assert(blob_yields(b, n@, recs@));
        assert forall|l2: int| 0 <= l2 < b.lines@.len() implies line_ok(b, l2) by {
            assert(record_matches(b.lines@[l2], recs@[l2]));
            assert(record_matches(b.lines@[0], recs@[0]));
            assert(recs@[l2].name@ == recs@[0].name@);
        }
    }
    Result::Ok(Option::Some((n, recs)))
}

fn index_has_key_exec(entries: &Vec<(Vec<u8>, Vec<CrateVersion>)>, n: &Vec<u8>) -> (r: bool)
    ensures
        r == index_has_key(entries@, n@),
{
    let mut i: usize = 0;
    while i < entries.len()
        invariant
            0 <= i <= entries.len(),
            forall|k: int| 0 <= k < i ==> (#[trigger] entries@[k]).0@ != n@,
        decreases entries.len() - i,
    {
        if bytes_eq(&entries[i].0, n) {
            return true;
        }
        i = i + 1;
    }
    false
}

/// Build the index from the blobs: all-or-nothing. Each entry holds the
/// checked records of the last blob bearing its name, and assembly fails
/// exactly when some line fails to parse or some blob mixes names.
pub fn assemble_index(blobs: Vec<Blob>) -> (r: Result<Index, IndexError>)
    ensures
        r is Ok <==> blobs_ok(blobs@),
        match r {
            Result::Ok(ix) => ix.wf() && index_matches_blobs(ix.entries@, blobs@),
            Result::Err(e) => err_witness(e, blobs@),
        },
{
    let ghost all = blobs@;
    let mut rem = blobs;
    let mut entries: Vec<(Vec<u8>, Vec<CrateVersion>)> = Vec::new();
    proof {
        assert(all.take(all.len() as int) =~= all);
        assert(all.skip(all.len() as int) =~= Seq::<Blob>::empty());
    }
    while rem.len() > 0
        invariant
            rem@.len() <= all.len(),
            rem@ == all.take(rem@.len() as int),
            all == blobs@,
            forall|k: int| rem@.len() <= k < all.len() ==> blob_ok(#[trigger] all[k]),
            index_wf(entries@),
            index_matches_blobs(entries@, all.skip(rem@.len() as int)),
        decreases rem.len(),
    {
        let ghost n = rem@.len() as int;
        let ghost suffix = all.skip(n);
        let ghost suffix2 = all.skip(n - 1);
        let b = match rem.pop() {
            Option::Some(x) => x,
            Option::None => unreached(),
        };
        proof {
            assert(all.take(n).drop_last() =~= all.take(n - 1));
            assert(b == all[n - 1]);
            assert(suffix2.drop_first() =~= suffix);
        }
        let ghost gb = b;
        match parse_blob(b) {
            Result::Err(e) => {
                proof {
                    lemma_err_lift(e, gb, all, n);
                }
                return Result::Err(e);
            },
            Result::Ok(opt) => {
                match opt {
                    Option::None => {
                        proof {
                            lemma_matches_extend_empty(entries@, all, n);
                        }
                    },
                    Option::Some(entry) => {
                        if !index_has_key_exec(&entries, &entry.0) {
                            let ghost old_entries = entries@;
                            entries.push(entry);
                            proof {
                                lemma_matches_extend_insert(old_entries, entries@, entry, all, n);
                            }
                        } else {
                            proof {
                                lemma_matches_extend_present(entries@, entry, all, n);
                            }
                        }
                    },
                }
            },
        }
    }
    proof {
        assert(all.skip(0) =~= all);
    }
    Result::Ok(Index { entries })
}

/// A failure reported for one blob is a failure of the whole blob list,
/// and refutes that blob's well-formedness.
proof fn lemma_err_lift(e: IndexError, b: Blob, all: Seq<Blob>, n: int)
    requires
        1 <= n <= all.len(),
        b == all[n - 1],
        err_witness(e, seq![b]),
    ensures
        err_witness(e, all),
        !blob_ok(b),
{
    match e {
        IndexError::Parse { source, line } => {
            let k = choose|k: int|
                0 <= k < seq![b].len() && (#[trigger] seq![b][k]).source@ == source@ && 0 <= line
                    < seq![b][k].lines@.len() && line_parse_fails(seq![b][k].lines@[line as int]);
            assert(seq![b][k] == b);
            assert(all[n - 1].source@ == source@ && 0 <= line < all[n - 1].lines@.len()
                && line_parse_fails(all[n - 1].lines@[line as int]));
            assert(!line_ok(b, line as int));
        },
        IndexError::Consistency { source, expected, found, line } => {
            let k = choose|k: int|
                0 <= k < seq![b].len() && (#[trigger] seq![b][k]).source@ == source@ && 0 <= line
                    < seq![b][k].lines@.len() && !line_parse_fails(seq![b][k].lines@[0])
                    && !line_parse_fails(seq![b][k].lines@[line as int]) && expected@ == line_name(
                    seq![b][k].lines@[0],
                ) && found@ == line_name(seq![b][k].lines@[line as int]) && expected@ != found@;
            assert(seq![b][k] == b);
            assert(all[n - 1].source@ == source@ && 0 <= line < all[n - 1].lines@.len()
                && !line_parse_fails(all[n - 1].lines@[0]) && !line_parse_fails(
                all[n - 1].lines@[line as int],
            ) && expected@ == line_name(all[n - 1].lines@[0]) && found@ == line_name(
                all[n - 1].lines@[line as int],
            ) && expected@ != found@);
            assert(!line_ok(b, line as int));
        },
    }
}

/// Putting an empty blob in front of the suffix changes nothing.
proof fn lemma_matches_extend_empty(entries: Seq<(Vec<u8>, Vec<CrateVersion>)>, all: Seq<Blob>, n: int)
    requires
        1 <= n <= all.len(),
        all[n - 1].lines@.len() == 0,
        index_matches_blobs(entries, all.skip(n)),
    ensures
        index_matches_blobs(entries, all.skip(n - 1)),
{
    let suffix = all.skip(n);
    let suffix2 = all.skip(n - 1);
    assert(suffix2.drop_first() =~= suffix);
    assert forall|i: int| 0 <= i < entries.len() implies entry_from_blobs(
        #[trigger] entries[i],
        suffix2,
    ) by {
        let k = choose|k: int|
            0 <= k < suffix.len() && blob_yields(#[trigger] suffix[k], entries[i].0@, entries[i].1@)
                && (forall|k2: int| k < k2 < suffix.len() ==> !blob_named(
                #[trigger] suffix[k2],
                entries[i].0@,
            ));
        assert(suffix2[k + 1] == suffix[k]);
        assert forall|k2: int| k + 1 < k2 < suffix2.len() implies !blob_named(
            #[trigger] suffix2[k2],
            entries[i].0@,
        ) by {
            assert(suffix2[k2] == suffix[k2 - 1]);
        }
    }
    assert forall|k: int|
        0 <= k < suffix2.len() && (#[trigger] suffix2[k]).lines@.len() > 0 implies index_has_key(
        entries,
        line_name(suffix2[k].lines@[0]),
    ) by {
        assert(k > 0);
        assert(suffix2[k] == suffix[k - 1]);
    }
}

/// Putting a blob whose name is new in front of the suffix adds exactly its
/// entry.
proof fn lemma_matches_extend_insert(
    old_entries: Seq<(Vec<u8>, Vec<CrateVersion>)>,
    entries: Seq<(Vec<u8>, Vec<CrateVersion>)>,
    entry: (Vec<u8>, Vec<CrateVersion>),
    all: Seq<Blob>,
    n: int,
)
    requires
        1 <= n <= all.len(),
        entries == old_entries.push(entry),
        blob_yields(all[n - 1], entry.0@, entry.1@),
        !index_has_key(old_entries, entry.0@),
        index_wf(old_entries),
        index_matches_blobs(old_entries, all.skip(n)),
    ensures
        index_wf(entries),
        index_matches_blobs(entries, all.skip(n - 1)),
{
    let suffix = all.skip(n);
    let suffix2 = all.skip(n - 1);
    assert(suffix2.drop_first() =~= suffix);
    assert(suffix2[0] == all[n - 1]);
    // well-formedness of the extended entry list
    assert forall|i: int, j: int|
        0 <= i < j < entries.len() implies (#[trigger] entries[i]).0@ != (
    #[trigger] entries[j]).0@ by {
        if j == entries.len() - 1 {
            assert(!index_has_key(old_entries, entry.0@));
            assert(old_entries[i] == entries[i]);
        }
    }
    assert forall|i: int, j: int|
        0 <= i < entries.len() && 0 <= j < entries[i].1@.len() implies (
    #[trigger] entries[i].1@[j]).name@ == entries[i].0@ by {
        if i < entries.len() - 1 {
            assert(old_entries[i] == entries[i]);
        }
    }
    // the new entry comes from the new front blob, and no later blob bears
    // its name, else the name would already be a key
    assert forall|k2: int| 0 < k2 < suffix2.len() implies !blob_named(
        #[trigger] suffix2[k2],
        entry.0@,
    ) by {
        assert(suffix2[k2] == suffix[k2 - 1]);
        if blob_named(suffix[k2 - 1], entry.0@) {
            assert(index_has_key(old_entries, line_name(suffix[k2 - 1].lines@[0])));
        }
    }
    assert(entry_from_blobs(entry, suffix2));
    // the old entries keep their witnesses, shifted by one
    assert forall|i: int| 0 <= i < entries.len() implies entry_from_blobs(
        #[trigger] entries[i],
        suffix2,
    ) by {
        if i < entries.len() - 1 {
            assert(entries[i] == old_entries[i]);
            let k = choose|k: int|
                0 <= k < suffix.len() && blob_yields(
                    #[trigger] suffix[k],
                    old_entries[i].0@,
                    old_entries[i].1@,
                ) && (forall|k2: int| k < k2 < suffix.len() ==> !blob_named(
                    #[trigger] suffix[k2],
                    old_entries[i].0@,
                ));
            assert(suffix2[k + 1] == suffix[k]);
            assert forall|k2: int| k + 1 < k2 < suffix2.len() implies !blob_named(
                #[trigger] suffix2[k2],
                entries[i].0@,
            ) by {
                assert(suffix2[k2] == suffix[k2 - 1]);
            }
        }
    }
    assert forall|k: int|
        0 <= k < suffix2.len() && (#[trigger] suffix2[k]).lines@.len() > 0 implies index_has_key(
        entries,
        line_name(suffix2[k].lines@[0]),
    ) by {
        if k == 0 {
            assert(entries[entries.len() - 1] == entry);
        } else {
            assert(suffix2[k] == suffix[k - 1]);
            let i = choose|i: int|
                0 <= i < old_entries.len() && (#[trigger] old_entries[i]).0@ == line_name(
                    suffix[k - 1].lines@[0],
                );
            assert(entries[i] == old_entries[i]);
        }
    }
}

/// Putting a blob whose name is already a key in front of the suffix
/// changes nothing: the entry of the later blob stands.
proof fn lemma_matches_extend_present(
    entries: Seq<(Vec<u8>, Vec<CrateVersion>)>,
    entry: (Vec<u8>, Vec<CrateVersion>),
    all: Seq<Blob>,
    n: int,
)
    requires
        1 <= n <= all.len(),
        blob_yields(all[n - 1], entry.0@, entry.1@),
        index_has_key(entries, entry.0@),
        index_matches_blobs(entries, all.skip(n)),
    ensures
        index_matches_blobs(entries, all.skip(n - 1)),
{
    let suffix = all.skip(n);
    let suffix2 = all.skip(n - 1);
    assert(suffix2.drop_first() =~= suffix);
    assert(suffix2[0] == all[n - 1]);
    assert forall|i: int| 0 <= i < entries.len() implies entry_from_blobs(
        #[trigger] entries[i],
        suffix2,
    ) by {
        let k = choose|k: int|
            0 <= k < suffix.len() && blob_yields(#[trigger] suffix[k], entries[i].0@, entries[i].1@)
                && (forall|k2: int| k < k2 < suffix.len() ==> !blob_named(
                #[trigger] suffix[k2],
                entries[i].0@,
            ));
        assert(suffix2[k + 1] == suffix[k]);
        assert forall|k2: int| k + 1 < k2 < suffix2.len() implies !blob_named(
            #[trigger] suffix2[k2],
            entries[i].0@,
        ) by {
            assert(suffix2[k2] == suffix[k2 - 1]);
        }
    }
    assert forall|k: int|
        0 <= k < suffix2.len() && (#[trigger] suffix2[k]).lines@.len() > 0 implies index_has_key(
        entries,
        line_name(suffix2[k].lines@[0]),
    ) by {
        if k == 0 {
            assert(line_name(suffix2[0].lines@[0]) == entry.0@);
        } else {
            assert(suffix2[k] == suffix[k - 1]);
        }
    }
}

} // verus!
