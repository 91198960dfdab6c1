//! Which files are worth looking at, and which of them are copies.

use crate::order;
use crate::order::sort_by_keys;
use crate::paths;
use crate::paths::{depth_of, extension_of, path_key_of};
use crate::text;
use crate::text::{chars_of, eq_ignore_case, own, same};
use crate::types;
use crate::types::{Duplicate, DuplicateView, SourceDoc, SourceDocView};
use vstd::prelude::*;

verus! {

/// Directory names that are never descended into: VCS metadata, and the output
/// of tools.
pub open spec fn skipped_names() -> Seq<Seq<char>> {
    seq![
        ".git"@,
        ".svn"@,
        "target"@,
        "node_modules"@,
        ".venv"@,
        "__pycache__"@,
    ]
}

/// Whether a path is another or lies below it.
pub open spec fn lies_under(p: Seq<char>, dir: Seq<char>) -> bool {
    paths::path_key(dir).len() <= paths::path_key(p).len() && paths::path_key(p).take(paths::path_key(dir).len() as int)
        == paths::path_key(dir)
}

/// Whether a directory is walked: none that is hidden, save the root of the
/// walk, none that is known to hold no documents, and nothing inside the
/// library's own output, even if it lives under the source. `canonical` is the
/// directory's real path, if it could be told.
pub open spec fn is_walked(
    name: Seq<char>,
    depth: usize,
    canonical: Option<Seq<char>>,
    excluded: Seq<Seq<char>>,
) -> bool {
    &&& !(name.len() > 0 && name[0] == '.' && depth > 0)
    &&& !skipped_names().contains(name)
    &&& match canonical {
        Some(p) => forall|i: int|
            0 <= i < excluded.len() ==> !lies_under(p, #[trigger] excluded[i]),
        None => true,
    }
}

fn under(p: &str, dir: &str) -> (r: bool)
    ensures
        r == lies_under(p@, dir@),
{
    let a = path_key_of(p);
    let b = path_key_of(dir);
    if b.len() > a.len() {
        return false;
    }
    let mut i: usize = 0;
    while i < b.len()
        invariant
            b@.len() <= a@.len(),
            a@ == paths::path_key(p@),
            b@ == paths::path_key(dir@),
            i <= b@.len(),
            forall|j: int| 0 <= j < i ==> a@[j] == b@[j],
        decreases b@.len() - i,
    {
        if a[i] != b[i] {
            assert(a@.take(b@.len() as int)[i as int] != b@[i as int]);
            return false;
        }
        i = i + 1;
    }
    assert(a@.take(b@.len() as int) =~= b@);
    true
}

/// Whether to descend into a directory.
pub fn walks_into(name: &str, depth: usize, canonical: &Option<String>, excluded: &Vec<String>) -> (r: bool)
    ensures
        r == is_walked(name@, depth, text::opt_text(*canonical), text::texts(excluded@)),
        canonical matches Some(p) ==> forall|i: int|
            0 <= i < excluded@.len() && lies_under(p@, (#[trigger] excluded@[i])@) ==> !r,
        depth > 0 && name@.len() > 0 && name@[0] == '.' ==> !r,
        !r ==> (depth > 0 && name@.len() > 0 && name@[0] == '.') || skipped_names().contains(name@)
            || (canonical matches Some(p) && exists|i: int|
            0 <= i < excluded@.len() && lies_under(p@, (#[trigger] excluded@[i])@)),
{
    proof {
        let outside = text::texts(excluded@);
        assert forall|i: int| 0 <= i < excluded@.len() implies outside[i] == (
        #[trigger] excluded@[i])@ by {}
        if let Some(p) = canonical {
            if exists|i: int| 0 <= i < outside.len() && lies_under(p@, #[trigger] outside[i]) {
                let i = choose|i: int|
                    0 <= i < outside.len() && lies_under(p@, #[trigger] outside[i]);
                assert(lies_under(p@, excluded@[i]@));
            }
        }
    }
    let cs = chars_of(name);
    if cs.len() > 0 && cs[0] == '.' && depth > 0 {
        return false;
    }
    let names: Vec<&'static str> = vec![
        ".git",
        ".svn",
        "target",
        "node_modules",
        ".venv",
        "__pycache__",
    ];
    let ghost all = skipped_names();
    let mut i: usize = 0;
    while i < names.len()
        invariant
            all == skipped_names(),
            names@.len() == 6,
            all.len() == 6,
            forall|j: int| 0 <= j < 6 ==> (#[trigger] names@[j])@ == all[j],
            i <= 6,
            forall|j: int| 0 <= j < i ==> all[j] != name@,
        decreases 6 - i,
    {
        if same(name, names[i]) {
            assert(all[i as int] == name@);
            return false;
        }
        i = i + 1;
    }
    let ghost outside = text::texts(excluded@);
    if let Some(p) = canonical {
        let mut k: usize = 0;
        while k < excluded.len()
            invariant
                outside == text::texts(excluded@),
                text::opt_text(*canonical) == Some(p@),
                k <= excluded@.len(),
                forall|j: int| 0 <= j < k ==> !lies_under(p@, #[trigger] outside[j]),
            decreases excluded@.len() - k,
        {
            assert(outside[k as int] == excluded@[k as int]@);
            if under(p.as_str(), excluded[k].as_str()) {
                assert(lies_under(p@, outside[k as int]));
                return false;
            }
            k = k + 1;
        }
    }
    true
}

/// Whether a path is that of a PDF, going by its extension.
pub open spec fn named_pdf(p: Seq<char>) -> bool {
    match paths::extension(p) {
        Some(e) => text::same_ignoring_case(e, "pdf"@),
        None => false,
    }
}

pub fn is_pdf(path: &str) -> (r: bool)
    ensures
        r == named_pdf(path@),
{
    match extension_of(path) {
        Some(e) => eq_ignore_case(chars_of(e.as_str()).as_slice(), chars_of("pdf").as_slice()),
        None => false,
    }
}

pub open spec fn path_keys(v: Seq<Seq<char>>) -> Seq<Seq<i128>> {
    Seq::new(v.len(), |i: int| paths::path_key(v[i]))
}

/// Paths in sorted order.
pub fn sort_paths(v: Vec<String>) -> (r: Vec<String>)
    ensures
        text::texts(r@) == order::arranged(text::texts(v@), path_keys(text::texts(v@))),
{
    let ghost all = text::texts(v@);
    let mut keys: Vec<Vec<i128>> = Vec::new();
    let mut i: usize = 0;
    while i < v.len()
        invariant
            all == text::texts(v@),
            i <= v@.len(),
            keys@.len() == i,
            order::key_lists(keys@) =~= path_keys(all).take(i as int),
        decreases v@.len() - i,
    {
        let key = path_key_of(v[i].as_str());
        let ghost before = keys@;
        keys.push(key);
        proof {
            assert(order::key_lists(keys@) =~= order::key_lists(before).push(key@));
        }
        i = i + 1;
    }
    assert(path_keys(all).take(i as int) =~= path_keys(all));
    let r = sort_by_keys(v, &keys);
    assert(text::texts(r@) =~= order::arranged(all, path_keys(all)));
    r
}

// ---------------------------------------------------------------------------
// Fingerprints
// ---------------------------------------------------------------------------

/// How much of a file's head, and of its tail, goes into its fingerprint.
pub const SAMPLE: u64 = 262_144;

/// The BLAKE3 hash of some bytes, in hexadecimal.
pub uninterp spec fn blake3_text(bytes: Seq<u8>) -> Seq<char>;

/// `blake3::hash`, and `to_hex` of what it gives: sixty-four digits. Nothing is
/// said of which digits these are.
#[verifier::external_body]
pub(crate) fn blake3_hex(bytes: &[u8]) -> (r: String)
    ensures
        r@ == blake3_text(bytes@),
        r@.len() == 64,
{
    blake3::hash(bytes).to_hex().to_string()
}

/// How many bytes to read from the head of a file.
pub fn head_len(bytes: u64) -> (r: u64)
    ensures
        r == (if bytes < SAMPLE {
            bytes
        } else {
            SAMPLE
        }),
        r <= bytes,
        r <= 262_144,
        r < bytes ==> r == 262_144,
{
    if bytes < SAMPLE {
        bytes
    } else {
        SAMPLE
    }
}

/// Whether the tail of a file goes into its fingerprint too.
pub open spec fn has_tail(bytes: u64) -> bool {
    bytes > SAMPLE * 2
}

pub fn needs_tail(bytes: u64) -> (r: bool)
    ensures
        r == has_tail(bytes),
        r <==> bytes > 524_288,
{
    bytes > SAMPLE * 2
}

/// What is hashed: the length of a file, its head, and its tail if it is long.
pub open spec fn hashed_bytes(bytes: u64, head: Seq<u8>, tail: Seq<u8>) -> Seq<u8> {
    vstd::bytes::spec_u64_to_le_bytes(bytes) + head + (if has_tail(bytes) {
        tail
    } else {
        seq![]
    })
}

fn append_bytes(out: &mut Vec<u8>, more: &[u8])
    ensures
        final(out)@ == old(out)@ + more@,
{
    let ghost start = out@;
    let mut i: usize = 0;
    assert(out@ =~= start + more@.take(0));
    while i < more.len()
        invariant
            i <= more@.len(),
            out@ == start + more@.take(i as int),
        decreases more@.len() - i,
    {
        out.push(more[i]);
        assert(out@ =~= start + more@.take(i + 1));
        i = i + 1;
    }
    assert(more@.take(i as int) =~= more@);
}

/// Fingerprint a file, so the cache survives renames and copies can be spotted.
///
/// Hashing a large collection fully would dominate the run, so this fingerprints
/// the head, tail and length of each file instead — enough to key a cache and to
/// flag copies of the same download, without reading every byte.
pub fn fingerprint(path: &str, bytes: u64, head: &[u8], tail: &[u8]) -> (r: SourceDoc)
    ensures
        r@ == (SourceDocView {
            path: path@,
            hash: blake3_text(hashed_bytes(bytes, head@, tail@)),
            bytes,
        }),
{
    let mut all = vstd::bytes::u64_to_le_bytes(bytes);
    append_bytes(&mut all, head);
    if bytes > SAMPLE * 2 {
        append_bytes(&mut all, tail);
    }
    assert(all@ =~= hashed_bytes(bytes, head@, tail@));
    SourceDoc { path: own(path), hash: blake3_hex(all.as_slice()), bytes }
}

/// Files whose fingerprints are made of the same bytes have one length, one head,
/// and, where they are long enough for it to be read apart from the head, one tail.
pub proof fn fingerprints_tell_files_apart(
    a: u64,
    a_head: Seq<u8>,
    a_tail: Seq<u8>,
    b: u64,
    b_head: Seq<u8>,
    b_tail: Seq<u8>,
)
    requires
        hashed_bytes(a, a_head, a_tail) == hashed_bytes(b, b_head, b_tail),
        a_head.len() == (if a < 262_144 {
            a
        } else {
            262_144
        }),
        b_head.len() == (if b < 262_144 {
            b
        } else {
            262_144
        }),
    ensures
        a == b,
        a_head == b_head,
        a > 524_288 ==> a_tail == b_tail,
{
    vstd::bytes::lemma_auto_spec_u64_to_from_le_bytes();
    let x = hashed_bytes(a, a_head, a_tail);
    let y = hashed_bytes(b, b_head, b_tail);
    let n = vstd::bytes::spec_u64_to_le_bytes(a);
    let m = vstd::bytes::spec_u64_to_le_bytes(b);
    assert(x.take(8) =~= n);
    assert(y.take(8) =~= m);
    assert(vstd::bytes::spec_u64_from_le_bytes(n) == a);
    assert(vstd::bytes::spec_u64_from_le_bytes(m) == b);
    let h = a_head.len() as int;
    assert(x.subrange(8, 8 + h) =~= a_head);
    assert(y.subrange(8, 8 + h) =~= b_head);
    if a > 524_288 {
        assert(x.skip(8 + h) =~= a_tail);
        assert(y.skip(8 + h) =~= b_tail);
    }
}

// ---------------------------------------------------------------------------
// Copies
// ---------------------------------------------------------------------------

/// The documents with a hash, in order.
pub open spec fn group(docs: Seq<SourceDocView>, hash: Seq<char>) -> Seq<SourceDocView>
    decreases docs.len(),
{
    if docs.len() == 0 {
        seq![]
    } else {
        let before = group(docs.drop_last(), hash);
        if docs.last().hash == hash {
            before.push(docs.last())
        } else {
            before
        }
    }
}

/// The shallowest path comes first: it is usually the original. Then paths come
/// in order.
pub open spec fn keeper_key(d: SourceDocView) -> Seq<i128> {
    seq![paths::depth(d.path) as i128] + paths::path_key(d.path)
}

pub open spec fn keeper_keys(v: Seq<SourceDocView>) -> Seq<Seq<i128>> {
    Seq::new(v.len(), |i: int| keeper_key(v[i]))
}

/// The documents with a hash, the one to keep first.
pub open spec fn ranked(docs: Seq<SourceDocView>, hash: Seq<char>) -> Seq<SourceDocView> {
    order::arranged(group(docs, hash), keeper_keys(group(docs, hash)))
}

/// Whether the document at `i` is the first with its hash.
pub open spec fn is_first_copy(docs: Seq<SourceDocView>, i: int) -> bool {
    forall|j: int| 0 <= j < i ==> (#[trigger] docs[j]).hash != docs[i].hash
}

/// The document to keep for each hash among the first `n`.
pub open spec fn keepers(docs: Seq<SourceDocView>, n: int) -> Seq<SourceDocView>
    decreases n,
{
    if n <= 0 {
        seq![]
    } else if is_first_copy(docs, n - 1) {
        keepers(docs, n - 1).push(ranked(docs, docs[n - 1].hash)[0])
    } else {
        keepers(docs, n - 1)
    }
}

pub open spec fn doc_paths(v: Seq<SourceDocView>) -> Seq<Seq<char>> {
    Seq::new(v.len(), |i: int| v[i].path)
}

/// The copies for each hash among the first `n` that has any.
pub open spec fn copies(docs: Seq<SourceDocView>, n: int) -> Seq<DuplicateView>
    decreases n,
{
    if n <= 0 {
        seq![]
    } else {
        let before = copies(docs, n - 1);
        let same_hash = ranked(docs, docs[n - 1].hash);
        if is_first_copy(docs, n - 1) && same_hash.len() > 1 {
            before.push(
                DuplicateView {
                    hash: docs[n - 1].hash,
                    kept: same_hash[0].path,
                    others: doc_paths(same_hash.skip(1)),
                },
            )
        } else {
            before
        }
    }
}

pub open spec fn kept_paths(v: Seq<DuplicateView>) -> Seq<Seq<char>> {
    Seq::new(v.len(), |i: int| v[i].kept)
}

/// One document for each hash, in path order.
pub open spec fn unique_docs(docs: Seq<SourceDocView>) -> Seq<SourceDocView> {
    let kept = keepers(docs, docs.len() as int);
    order::arranged(kept, path_keys(doc_paths(kept)))
}

/// The groups of copies, in the order of the paths kept.
pub open spec fn duplicate_groups(docs: Seq<SourceDocView>) -> Seq<DuplicateView> {
    let found = copies(docs, docs.len() as int);
    order::arranged(found, path_keys(kept_paths(found)))
}

fn first_copy(docs: &Vec<SourceDoc>, i: usize) -> (r: bool)
    requires
        i < docs@.len(),
    ensures
        r == is_first_copy(types::doc_views(docs@), i as int),
{
    let ghost all = types::doc_views(docs@);
    let mut j: usize = 0;
    while j < i
        invariant
            all == types::doc_views(docs@),
            j <= i < docs@.len(),
            forall|k: int| 0 <= k < j ==> (#[trigger] all[k]).hash != all[i as int].hash,
        decreases i - j,
    {
        if same(docs[j].hash.as_str(), docs[i].hash.as_str()) {
            assert(all[j as int].hash == all[i as int].hash);
            return false;
        }
        j = j + 1;
    }
    true
}

/// The documents that share the hash of the one at `n`, the one to keep first.
fn rank_copies(docs: &Vec<SourceDoc>, n: usize) -> (r: Vec<SourceDoc>)
    requires
        n < docs@.len(),
    ensures
        types::doc_views(r@) == ranked(types::doc_views(docs@), docs@[n as int].hash@),
        r@.len() > 0,
{
    let ghost all = types::doc_views(docs@);
    let ghost hash = docs@[n as int].hash@;
    let mut out: Vec<SourceDoc> = Vec::new();
    let mut keys: Vec<Vec<i128>> = Vec::new();
    let mut i: usize = 0;
    assert(all.take(0) =~= Seq::<SourceDocView>::empty());
    assert(types::doc_views(out@) =~= Seq::<SourceDocView>::empty());
    while i < docs.len()
        invariant
            all == types::doc_views(docs@),
            n < docs@.len(),
            hash == docs@[n as int].hash@,
            i <= docs@.len(),
            types::doc_views(out@) == group(all.take(i as int), hash),
            keys@.len() == out@.len(),
            order::key_lists(keys@) =~= keeper_keys(types::doc_views(out@)),
            i > n ==> out@.len() > 0,
        decreases docs@.len() - i,
    {
        let d = &docs[i];
        assert(all.take(i + 1).drop_last() =~= all.take(i as int));
        assert(all.take(i + 1).last() == d@);
        if same(d.hash.as_str(), docs[n].hash.as_str()) {
            let ghost before = out@;
            let ghost old_keys = keys@;
            let mut key: Vec<i128> = Vec::new();
            key.push(depth_of(d.path.as_str()) as i128);
            let mut path = path_key_of(d.path.as_str());
            key.append(&mut path);
            assert(key@ =~= keeper_key(d@));
            keys.push(key);
            let copy = d.clone();
            out.push(copy);
            proof {
                assert(types::doc_views(out@) =~= types::doc_views(before).push(d@));
                assert(order::key_lists(keys@) =~= order::key_lists(old_keys).push(key@));
            }
        }
        i = i + 1;
    }
    assert(all.take(i as int) =~= all);
    let r = sort_by_keys(out, &keys);
    assert(types::doc_views(r@) =~= ranked(all, hash));
    r
}

/// Split the corpus into one representative per hash plus the duplicate groups.
pub fn dedupe(docs: Vec<SourceDoc>) -> (r: (Vec<SourceDoc>, Vec<Duplicate>))
    ensures
        types::doc_views(r.0@) == unique_docs(types::doc_views(docs@)),
        types::duplicate_views(r.1@) == duplicate_groups(types::doc_views(docs@)),
        forall|k: int, i: int|
            0 <= k < r.0@.len() && 0 <= i < docs@.len() && (#[trigger] docs@[i]).hash@ == (
            #[trigger] r.0@[k]).hash@ && paths::depth(docs@[i].path@) <= usize::MAX && paths::depth(
                r.0@[k].path@,
            ) <= usize::MAX ==> paths::depth(r.0@[k].path@) <= paths::depth(docs@[i].path@),
{
    let ghost all = types::doc_views(docs@);
    let mut unique: Vec<SourceDoc> = Vec::new();
    let mut unique_keys: Vec<Vec<i128>> = Vec::new();
    let mut duplicates: Vec<Duplicate> = Vec::new();
    let mut duplicate_keys: Vec<Vec<i128>> = Vec::new();
    let mut i: usize = 0;
    assert(types::doc_views(unique@) =~= Seq::<SourceDocView>::empty());
    assert(types::duplicate_views(duplicates@) =~= Seq::<DuplicateView>::empty());
    while i < docs.len()
        invariant
            all == types::doc_views(docs@),
            i <= docs@.len(),
            types::doc_views(unique@) == keepers(all, i as int),
            unique_keys@.len() == unique@.len(),
            order::key_lists(unique_keys@) =~= path_keys(doc_paths(types::doc_views(unique@))),
            types::duplicate_views(duplicates@) == copies(all, i as int),
            duplicate_keys@.len() == duplicates@.len(),
            order::key_lists(duplicate_keys@) =~= path_keys(kept_paths(types::duplicate_views(duplicates@))),
        decreases docs@.len() - i,
    {
        assert(all[i as int] == docs@[i as int]@);
        if first_copy(&docs, i) {
            let same_hash = rank_copies(&docs, i);
            let ghost ranks = types::doc_views(same_hash@);
            assert(ranks[0] == same_hash@[0]@);
            let kept = same_hash[0].clone();
            if same_hash.len() > 1 {
                let mut others: Vec<String> = Vec::new();
                let mut k: usize = 1;
                assert(text::texts(others@) =~= doc_paths(ranks.skip(1)).take(0));
                while k < same_hash.len()
                    invariant
                        ranks == types::doc_views(same_hash@),
                        1 <= k <= same_hash@.len(),
                        text::texts(others@) =~= doc_paths(ranks.skip(1)).take(k - 1),
                    decreases same_hash@.len() - k,
                {
                    let ghost before = others@;
                    let path = same_hash[k].path.clone();
                    others.push(path);
                    proof {
                        assert(text::texts(others@) =~= text::texts(before).push(path@));
                        assert(ranks.skip(1)[k - 1] == same_hash@[k as int]@);
                    }
                    k = k + 1;
                }
                assert(doc_paths(ranks.skip(1)).take(k - 1) =~= doc_paths(ranks.skip(1)));
                let key = path_key_of(kept.path.as_str());
                let ghost old_keys = duplicate_keys@;
                duplicate_keys.push(key);
                let found = Duplicate {
                    hash: docs[i].hash.clone(),
                    kept: kept.path.clone(),
                    others,
                };
                let ghost before = duplicates@;
                duplicates.push(found);
                proof {
                    assert(types::duplicate_views(duplicates@) =~= types::duplicate_views(before).push(found@));
                    assert(order::key_lists(duplicate_keys@) =~= order::key_lists(old_keys).push(key@));
                }
            }
            let key = path_key_of(kept.path.as_str());
            let ghost old_keys = unique_keys@;
            unique_keys.push(key);
            let ghost before = unique@;
            unique.push(kept);
            proof {
                assert(types::doc_views(unique@) =~= types::doc_views(before).push(kept@));
                assert(order::key_lists(unique_keys@) =~= order::key_lists(old_keys).push(key@));
            }
        }
        i = i + 1;
    }
    let ghost kept_views = types::doc_views(unique@);
    let ghost found_views = types::duplicate_views(duplicates@);
    let sorted = sort_by_keys(unique, &unique_keys);
    let groups = sort_by_keys(duplicates, &duplicate_keys);
    assert(types::doc_views(sorted@) =~= order::arranged(kept_views, path_keys(doc_paths(kept_views))));
    assert(types::duplicate_views(groups@) =~= order::arranged(found_views, path_keys(kept_paths(found_views))));
    proof {
        assert forall|k: int, i: int|
            0 <= k < sorted@.len() && 0 <= i < docs@.len() && (#[trigger] docs@[i]).hash@ == (
            #[trigger] sorted@[k]).hash@ && paths::depth(docs@[i].path@) <= usize::MAX
                && paths::depth(sorted@[k].path@) <= usize::MAX implies paths::depth(
            sorted@[k].path@,
        ) <= paths::depth(docs@[i].path@) by {
            assert(unique_docs(all)[k] == sorted@[k]@ && all[i] == docs@[i]@);
            the_shallowest_copy_is_kept(all, k, i);
        }
    }
    (sorted, groups)
}

proof fn lemma_group(docs: Seq<SourceDocView>, hash: Seq<char>, d: SourceDocView)
    ensures
        group(docs, hash).contains(d) <==> docs.contains(d) && d.hash == hash,
    decreases docs.len(),
{
    if docs.len() > 0 {
        let part = docs.drop_last();
        lemma_group(part, hash, d);
        let before = group(part, hash);
        let now = group(docs, hash);
        assert(docs =~= part.push(docs.last()));
        if before.contains(d) {
            let k = choose|k: int| 0 <= k < before.len() && before[k] == d;
            assert(now[k] == d);
        }
        if now.contains(d) {
            let k = choose|k: int| 0 <= k < now.len() && now[k] == d;
            if k < before.len() {
                assert(before[k] == d);
            }
        }
        if part.contains(d) {
            let k = choose|k: int| 0 <= k < part.len() && part[k] == d;
            assert(docs[k] == d);
        }
        if docs.contains(d) {
            let k = choose|k: int| 0 <= k < docs.len() && docs[k] == d;
            if k < part.len() {
                assert(part[k] == d);
            } else if d.hash == hash {
                assert(now[before.len() as int] == d);
            }
        }
    }
}

proof fn lemma_ranked(docs: Seq<SourceDocView>, hash: Seq<char>, d: SourceDocView)
    ensures
        ranked(docs, hash).contains(d) <==> docs.contains(d) && d.hash == hash,
{
    lemma_group(docs, hash, d);
    order::sorting_keeps_every_item(group(docs, hash), keeper_keys(group(docs, hash)), d);
}

/// The documents kept are of the hashes seen, and of each only once.
proof fn lemma_keepers(docs: Seq<SourceDocView>, n: int)
    requires
        0 <= n <= docs.len(),
    ensures
        forall|k: int|
            0 <= k < keepers(docs, n).len() ==> docs.contains(#[trigger] keepers(docs, n)[k]),
        forall|k: int|
            0 <= k < keepers(docs, n).len() ==> exists|i: int|
                0 <= i < n && (#[trigger] docs[i]).hash == (#[trigger] keepers(docs, n)[k]).hash,
        forall|a: int, b: int|
            0 <= a < b < keepers(docs, n).len() ==> (#[trigger] keepers(docs, n)[a]).hash != (
            #[trigger] keepers(docs, n)[b]).hash,
        forall|i: int|
            0 <= i < n ==> keepers(docs, n).contains(ranked(docs, (#[trigger] docs[i]).hash)[0]),
    decreases n,
{
    if n > 0 {
        lemma_keepers(docs, n - 1);
        let before = keepers(docs, n - 1);
        let now = keepers(docs, n);
        let d = docs[n - 1];
        let first = ranked(docs, d.hash)[0];
        assert(docs.contains(d));
        lemma_ranked(docs, d.hash, d);
        assert(ranked(docs, d.hash).len() > 0);
        assert(ranked(docs, d.hash).contains(first));
        lemma_ranked(docs, d.hash, first);
        if is_first_copy(docs, n - 1) {
            assert(now == before.push(first));
            assert forall|k: int| 0 <= k < now.len() implies docs.contains(#[trigger] now[k]) by {
                if k < before.len() {
                    assert(now[k] == before[k]);
                }
            }
            assert forall|k: int| 0 <= k < now.len() implies exists|i: int|
                0 <= i < n && (#[trigger] docs[i]).hash == (#[trigger] now[k]).hash by {
                if k < before.len() {
                    assert(now[k] == before[k]);
                    let i = choose|i: int|
                        0 <= i < n - 1 && (#[trigger] docs[i]).hash == before[k].hash;
                    assert(docs[i].hash == now[k].hash);
                } else {
                    assert(docs[n - 1].hash == now[k].hash);
                }
            }
            assert forall|a: int, b: int| 0 <= a < b < now.len() implies (#[trigger] now[a]).hash
                != (#[trigger] now[b]).hash by {
                assert(now[a] == before[a]);
                if b < before.len() {
                    assert(now[b] == before[b]);
                } else {
                    let i = choose|i: int|
                        0 <= i < n - 1 && (#[trigger] docs[i]).hash == before[a].hash;
                    assert(docs[i].hash != d.hash);
                }
            }
            assert forall|i: int| 0 <= i < n implies now.contains(
                ranked(docs, (#[trigger] docs[i]).hash)[0],
            ) by {
                if i < n - 1 {
                    let x = ranked(docs, docs[i].hash)[0];
                    assert(before.contains(x));
                    let k = choose|k: int| 0 <= k < before.len() && before[k] == x;
                    assert(now[k] == x);
                } else {
                    assert(now[before.len() as int] == first);
                }
            }
        } else {
            let j = choose|j: int| 0 <= j < n - 1 && (#[trigger] docs[j]).hash == d.hash;
            assert(docs[j].hash == d.hash);
            assert forall|k: int| 0 <= k < now.len() implies exists|i: int|
                0 <= i < n && (#[trigger] docs[i]).hash == (#[trigger] now[k]).hash by {
                let i = choose|i: int| 0 <= i < n - 1 && (#[trigger] docs[i]).hash == before[k].hash;
                assert(docs[i].hash == now[k].hash);
            }
            assert forall|i: int| 0 <= i < n implies now.contains(
                ranked(docs, (#[trigger] docs[i]).hash)[0],
            ) by {
                if i == n - 1 {
                    assert(before.contains(ranked(docs, docs[j].hash)[0]));
                }
            }
        }
    }
}

proof fn lemma_copies(docs: Seq<SourceDocView>, n: int, i: int)
    requires
        0 <= i < n <= docs.len(),
        ranked(docs, docs[i].hash).len() > 1,
    ensures
        copies(docs, n).contains(
            DuplicateView {
                hash: docs[i].hash,
                kept: ranked(docs, docs[i].hash)[0].path,
                others: doc_paths(ranked(docs, docs[i].hash).skip(1)),
            },
        ),
    decreases n,
{
    let d = docs[n - 1];
    let before = copies(docs, n - 1);
    let now = copies(docs, n);
    let goal = DuplicateView {
        hash: docs[i].hash,
        kept: ranked(docs, docs[i].hash)[0].path,
        others: doc_paths(ranked(docs, docs[i].hash).skip(1)),
    };
    if is_first_copy(docs, n - 1) {
        if i < n - 1 {
            lemma_copies(docs, n - 1, i);
            let k = choose|k: int| 0 <= k < before.len() && before[k] == goal;
            assert(now[k] == goal);
        } else {
            assert(now[before.len() as int] == goal);
        }
    } else {
        if i < n - 1 {
            lemma_copies(docs, n - 1, i);
        } else {
            let j = choose|j: int| 0 <= j < n - 1 && (#[trigger] docs[j]).hash == d.hash;
            lemma_copies(docs, n - 1, j);
        }
    }
}

/// No two of the documents kept have one hash.
pub proof fn kept_documents_differ(docs: Seq<SourceDocView>, a: int, b: int)
    requires
        0 <= a < b < unique_docs(docs).len(),
    ensures
        unique_docs(docs)[a].hash != unique_docs(docs)[b].hash,
{
    let kept = keepers(docs, docs.len() as int);
    let keys = path_keys(doc_paths(kept));
    lemma_keepers(docs, docs.len() as int);
    order::every_list_has_an_order(keys);
    let p = order::order_of(keys);
    assert(order::ranks_before(keys, p[a], p[b]));
    order::lemma_lex_irreflexive(keys[p[a]]);
    assert(p[a] != p[b]);
    if p[a] < p[b] {
        assert(kept[p[a]].hash != kept[p[b]].hash);
    } else {
        assert(kept[p[b]].hash != kept[p[a]].hash);
    }
}

/// No document is lost: each is kept, or it is listed as a copy of one that is.
pub proof fn every_document_is_kept_or_listed(docs: Seq<SourceDocView>, i: int)
    requires
        0 <= i < docs.len(),
    ensures
        unique_docs(docs).contains(docs[i]) || exists|k: int, g: int|
            0 <= k < unique_docs(docs).len() && 0 <= g < duplicate_groups(docs).len() && (
            #[trigger] unique_docs(docs)[k]).hash == docs[i].hash && (
            #[trigger] duplicate_groups(docs)[g]).kept == unique_docs(docs)[k].path
                && duplicate_groups(docs)[g].hash == docs[i].hash
                && duplicate_groups(docs)[g].others.contains(docs[i].path),
{
    let n = docs.len() as int;
    let d = docs[i];
    let line = ranked(docs, d.hash);
    let first = line[0];
    assert(docs.contains(d));
    lemma_ranked(docs, d.hash, d);
    let pos = choose|pos: int| 0 <= pos < line.len() && line[pos] == d;
    assert(line.contains(first));
    lemma_ranked(docs, d.hash, first);
    let kept = keepers(docs, n);
    lemma_keepers(docs, n);
    assert(kept.contains(first));
    order::sorting_keeps_every_item(kept, path_keys(doc_paths(kept)), first);
    if pos > 0 {
        lemma_copies(docs, n, i);
        let found_groups = copies(docs, n);
        let goal = DuplicateView {
            hash: d.hash,
            kept: first.path,
            others: doc_paths(line.skip(1)),
        };
        order::sorting_keeps_every_item(found_groups, path_keys(kept_paths(found_groups)), goal);
        let k = choose|k: int| 0 <= k < unique_docs(docs).len() && unique_docs(docs)[k] == first;
        let g = choose|g: int|
            0 <= g < duplicate_groups(docs).len() && duplicate_groups(docs)[g] == goal;
        assert(doc_paths(line.skip(1))[pos - 1] == d.path);
        assert(unique_docs(docs)[k].hash == d.hash);
        assert(duplicate_groups(docs)[g].kept == unique_docs(docs)[k].path);
    }
}

/// Of the documents with one hash, the one that is kept has the shallowest path,
/// and the first in order among those as shallow.
pub proof fn the_shallowest_copy_is_kept(docs: Seq<SourceDocView>, k: int, i: int)
    requires
        0 <= k < unique_docs(docs).len(),
        0 <= i < docs.len(),
        docs[i].hash == unique_docs(docs)[k].hash,
        paths::depth(docs[i].path) <= usize::MAX,
        paths::depth(unique_docs(docs)[k].path) <= usize::MAX,
    ensures
        docs.contains(unique_docs(docs)[k]),
        paths::depth(unique_docs(docs)[k].path) <= paths::depth(docs[i].path),
        paths::depth(unique_docs(docs)[k].path) == paths::depth(docs[i].path)
            ==> !order::lex_before(
            paths::path_key(docs[i].path),
            paths::path_key(unique_docs(docs)[k].path),
        ),
{
    let n = docs.len() as int;
    let d = docs[i];
    let e = unique_docs(docs)[k];
    let kept = keepers(docs, n);
    let line = ranked(docs, d.hash);
    let found = group(docs, d.hash);
    let keys = keeper_keys(found);
    lemma_keepers(docs, n);
    assert(unique_docs(docs).contains(e));
    order::sorting_keeps_every_item(kept, path_keys(doc_paths(kept)), e);
    assert(kept.contains(line[0]));
    let a = choose|a: int| 0 <= a < kept.len() && kept[a] == e;
    let b = choose|b: int| 0 <= b < kept.len() && kept[b] == line[0];
    assert(docs.contains(d));
    lemma_ranked(docs, d.hash, d);
    assert(line.contains(line[0]));
    lemma_ranked(docs, d.hash, line[0]);
    assert(a == b) by {
        if a < b {
            assert(kept[a].hash != kept[b].hash);
        } else if b < a {
            assert(kept[b].hash != kept[a].hash);
        }
    }
    assert(docs.contains(kept[a]));
    let pos = choose|pos: int| 0 <= pos < line.len() && line[pos] == d;
    order::sorting_keeps_every_item(found, keys, d);
    lemma_first_ranked(docs, d.hash, pos);
}

/// The first of some ranked copies comes no later than the others.
proof fn lemma_first_ranked(docs: Seq<SourceDocView>, hash: Seq<char>, pos: int)
    requires
        0 <= pos < ranked(docs, hash).len(),
        paths::depth(ranked(docs, hash)[0].path) <= usize::MAX,
        paths::depth(ranked(docs, hash)[pos].path) <= usize::MAX,
    ensures
        ({
            let e = ranked(docs, hash)[0];
            let d = ranked(docs, hash)[pos];
            &&& paths::depth(e.path) <= paths::depth(d.path)
            &&& paths::depth(e.path) == paths::depth(d.path) ==> !order::lex_before(
                paths::path_key(d.path),
                paths::path_key(e.path),
            )
        }),
{
    let found = group(docs, hash);
    let keys = keeper_keys(found);
    let e = ranked(docs, hash)[0];
    let d = ranked(docs, hash)[pos];
    order::every_list_has_an_order(keys);
    if pos > 0 {
        order::sorting_orders_by_key(found, keys, 0, pos);
        let (x, y) = choose|x: int, y: int|
            0 <= x < found.len() && 0 <= y < found.len() && x != y && order::arranged(
                found,
                keys,
            )[0] == #[trigger] found[x] && order::arranged(found, keys)[pos]
                == #[trigger] found[y] && !order::lex_before(keys[y], keys[x]);
        let s = keeper_key(d);
        let t = keeper_key(e);
        assert(keys[x] == t && keys[y] == s);
        assert(t.drop_first() =~= paths::path_key(e.path));
        assert(s.drop_first() =~= paths::path_key(d.path));
        assert(t[0] == paths::depth(e.path) as i128);
        assert(s[0] == paths::depth(d.path) as i128);
        assert(!order::lex_before(s, t));
    } else {
        order::lemma_lex_irreflexive(paths::path_key(d.path));
    }
}

/// All the copies that some groups list.
pub open spec fn all_others(groups: Seq<DuplicateView>) -> Seq<Seq<char>>
    decreases groups.len(),
{
    if groups.len() == 0 {
        seq![]
    } else {
        all_others(groups.drop_last()) + groups.last().others
    }
}

pub proof fn lemma_others_added(a: Seq<DuplicateView>, b: Seq<DuplicateView>, x: Seq<char>)
    ensures
        order::times(all_others(a + b), x) == order::times(all_others(a), x) + order::times(
            all_others(b),
            x,
        ),
    decreases b.len(),
{
    if b.len() == 0 {
        assert(a + b =~= a);
    } else {
        lemma_others_added(a, b.drop_last(), x);
        assert((a + b).drop_last() =~= a + b.drop_last());
        order::lemma_times_added(all_others(a + b.drop_last()), b.last().others, x);
        order::lemma_times_added(all_others(b.drop_last()), b.last().others, x);
    }
}

/// What groups list depends on how often each of them occurs, not on their order.
pub proof fn lemma_others_sorted(groups: Seq<DuplicateView>, keys: Seq<Seq<i128>>, x: Seq<char>)
    requires
        groups.len() == keys.len(),
    ensures
        order::times(all_others(order::arranged(groups, keys)), x) == order::times(
            all_others(groups),
            x,
        ),
{
    let sorted = order::arranged(groups, keys);
    order::sorting_keeps_every_item(groups, keys, groups[0]);
    assert forall|g: DuplicateView| order::times(groups, g) == #[trigger] order::times(sorted, g) by {
        order::sorting_keeps_counts(groups, keys, g);
    }
    lemma_others_counted(groups, sorted, x);
}

proof fn lemma_others_counted(a: Seq<DuplicateView>, b: Seq<DuplicateView>, x: Seq<char>)
    requires
        a.len() == b.len(),
        forall|g: DuplicateView| order::times(a, g) == #[trigger] order::times(b, g),
    ensures
        order::times(all_others(a), x) == order::times(all_others(b), x),
    decreases a.len(),
{
    if a.len() > 0 {
        let g = a.last();
        assert(order::times(a, g) == order::times(b, g));
        lemma_listed_where(b, g);
        let k = choose|k: int| 0 <= k < b.len() && b[k] == g;
        let rest = b.remove(k);
        assert forall|h: DuplicateView| order::times(a.drop_last(), h) == #[trigger] order::times(
            rest,
            h,
        ) by {
            order::lemma_times_removed(b, k, h);
            assert(order::times(a, h) == order::times(b, h));
        }
        lemma_others_counted(a.drop_last(), rest, x);
        lemma_others_removed(b, k, x);
        order::lemma_times_added(all_others(a.drop_last()), g.others, x);
    }
}

proof fn lemma_listed_where(b: Seq<DuplicateView>, g: DuplicateView)
    requires
        order::times(b, g) > 0,
    ensures
        exists|k: int| 0 <= k < b.len() && b[k] == g,
    decreases b.len(),
{
    if b.last() != g {
        lemma_listed_where(b.drop_last(), g);
        let k = choose|k: int| 0 <= k < b.drop_last().len() && b.drop_last()[k] == g;
        assert(b[k] == g);
    } else {
        assert(b[b.len() - 1] == g);
    }
}

proof fn lemma_others_removed(b: Seq<DuplicateView>, k: int, x: Seq<char>)
    requires
        0 <= k < b.len(),
    ensures
        order::times(all_others(b), x) == order::times(all_others(b.remove(k)), x) + order::times(
            b[k].others,
            x,
        ),
    decreases b.len(),
{
    order::lemma_times_added(all_others(b.drop_last()), b.last().others, x);
    if k == b.len() - 1 {
        assert(b.remove(k) =~= b.drop_last());
    } else {
        let rest = b.remove(k);
        lemma_others_removed(b.drop_last(), k, x);
        assert(rest.drop_last() =~= b.drop_last().remove(k));
        assert(rest.last() == b.last());
        order::lemma_times_added(all_others(rest.drop_last()), rest.last().others, x);
    }
}

/// The documents whose hash occurs among the first `n`, in order.
spec fn within(docs: Seq<SourceDocView>, all: Seq<SourceDocView>, n: int) -> Seq<SourceDocView>
    decreases docs.len(),
{
    if docs.len() == 0 {
        seq![]
    } else {
        let before = within(docs.drop_last(), all, n);
        if exists|j: int| 0 <= j < n && (#[trigger] all[j]).hash == docs.last().hash {
            before.push(docs.last())
        } else {
            before
        }
    }
}

proof fn lemma_within_none(docs: Seq<SourceDocView>, all: Seq<SourceDocView>)
    ensures
        within(docs, all, 0).len() == 0,
    decreases docs.len(),
{
    if docs.len() > 0 {
        lemma_within_none(docs.drop_last(), all);
    }
}

proof fn lemma_within_all(docs: Seq<SourceDocView>, all: Seq<SourceDocView>)
    requires
        docs.len() <= all.len(),
        docs == all.take(docs.len() as int),
    ensures
        within(docs, all, all.len() as int) == docs,
    decreases docs.len(),
{
    if docs.len() > 0 {
        let part = docs.drop_last();
        assert(part =~= all.take(part.len() as int));
        lemma_within_all(part, all);
        assert(all[docs.len() - 1].hash == docs.last().hash);
        assert(part.push(docs.last()) =~= docs);
    } else {
        assert(within(docs, all, all.len() as int) =~= docs);
    }
}

/// One more document adds the documents with its hash, if it is the first with
/// it.
proof fn lemma_within_more(
    docs: Seq<SourceDocView>,
    all: Seq<SourceDocView>,
    n: int,
    x: Seq<char>,
)
    requires
        0 < n <= all.len(),
    ensures
        order::times(doc_paths(within(docs, all, n)), x) == order::times(
            doc_paths(within(docs, all, n - 1)),
            x,
        ) + (if is_first_copy(all, n - 1) {
            order::times(doc_paths(group(docs, all[n - 1].hash)), x)
        } else {
            0
        }),
    decreases docs.len(),
{
    if docs.len() == 0 {
        assert(doc_paths(within(docs, all, n)) =~= seq![]);
        assert(doc_paths(within(docs, all, n - 1)) =~= seq![]);
        assert(doc_paths(group(docs, all[n - 1].hash)) =~= seq![]);
    } else {
        let part = docs.drop_last();
        let d = docs.last();
        lemma_within_more(part, all, n, x);
        lemma_path_pushed(within(part, all, n), d, x);
        lemma_path_pushed(within(part, all, n - 1), d, x);
        lemma_path_pushed(group(part, all[n - 1].hash), d, x);
        let now = exists|j: int| 0 <= j < n && (#[trigger] all[j]).hash == d.hash;
        let before = exists|j: int| 0 <= j < n - 1 && (#[trigger] all[j]).hash == d.hash;
        if all[n - 1].hash == d.hash {
            if before {
                let j = choose|j: int| 0 <= j < n - 1 && (#[trigger] all[j]).hash == d.hash;
                assert(all[j].hash == all[n - 1].hash);
                assert(!is_first_copy(all, n - 1));
            } else {
                assert(is_first_copy(all, n - 1));
            }
        }
    }
}

proof fn lemma_path_pushed(v: Seq<SourceDocView>, d: SourceDocView, x: Seq<char>)
    ensures
        order::times(doc_paths(v.push(d)), x) == order::times(doc_paths(v), x) + (if d.path == x {
            1nat
        } else {
            0nat
        }),
{
    assert(doc_paths(v.push(d)) =~= doc_paths(v).push(d.path));
    assert(doc_paths(v).push(d.path).drop_last() =~= doc_paths(v));
}

proof fn lemma_parted_copies(docs: Seq<SourceDocView>, n: int, x: Seq<char>)
    requires
        0 <= n <= docs.len(),
    ensures
        order::times(doc_paths(keepers(docs, n)), x) + order::times(
            all_others(copies(docs, n)),
            x,
        ) == order::times(doc_paths(within(docs, docs, n)), x),
    decreases n,
{
    if n == 0 {
        lemma_within_none(docs, docs);
        assert(doc_paths(within(docs, docs, 0)) =~= seq![]);
        assert(doc_paths(keepers(docs, 0)) =~= seq![]);
    } else {
        lemma_parted_copies(docs, n - 1, x);
        lemma_within_more(docs, docs, n, x);
        if is_first_copy(docs, n - 1) {
            let hash = docs[n - 1].hash;
            let all = group(docs, hash);
            let line = ranked(docs, hash);
            let keys = keeper_keys(all);
            lemma_group(docs, hash, docs[n - 1]);
            assert(docs.contains(docs[n - 1]));
            assert(all.len() > 0);
            order::sorting_keeps_every_item(all, keys, all[0]);
            order::every_list_has_an_order(keys);
            order::sorting_keeps_counts(doc_paths(all), keys, x);
            assert(doc_paths(line) =~= order::arranged(doc_paths(all), keys));
            lemma_path_pushed(keepers(docs, n - 1), line[0], x);
            order::lemma_times_one(line[0].path, x);
            order::lemma_times_added(seq![line[0].path], doc_paths(line.skip(1)), x);
            assert(doc_paths(line) =~= seq![line[0].path] + doc_paths(line.skip(1)));
            let before = copies(docs, n - 1);
            if line.len() > 1 {
                let more = copies(docs, n);
                assert(more.drop_last() =~= before);
                order::lemma_times_added(all_others(before), doc_paths(line.skip(1)), x);
            } else {
                assert(doc_paths(line.skip(1)) =~= seq![]);
            }
        }
    }
}

/// Every path is listed exactly as often as it was found: among the documents
/// kept, or among the copies.
pub proof fn every_path_is_kept_or_listed_once(docs: Seq<SourceDocView>, x: Seq<char>)
    ensures
        order::times(doc_paths(unique_docs(docs)), x) + order::times(
            all_others(duplicate_groups(docs)),
            x,
        ) == order::times(doc_paths(docs), x),
{
    let n = docs.len() as int;
    let kept = keepers(docs, n);
    let found = copies(docs, n);
    let keys = path_keys(doc_paths(kept));
    lemma_parted_copies(docs, n, x);
    assert(docs.take(n) =~= docs);
    lemma_within_all(docs, docs);
    order::sorting_keeps_counts(doc_paths(kept), keys, x);
    order::every_list_has_an_order(keys);
    assert(doc_paths(order::arranged(kept, keys)) =~= order::arranged(doc_paths(kept), keys));
    lemma_others_sorted(found, path_keys(kept_paths(found)), x);
}

/// No two of some documents have one path.
pub open spec fn paths_differ(docs: Seq<SourceDocView>) -> bool {
    forall|i: int, j: int|
        0 <= i < j < docs.len() ==> paths::path_key((#[trigger] docs[i]).path) != paths::path_key(
            (#[trigger] docs[j]).path,
        )
}

/// The copies of one hash, under the one to keep.
spec fn copies_of(docs: Seq<SourceDocView>, hash: Seq<char>) -> DuplicateView {
    DuplicateView {
        hash,
        kept: ranked(docs, hash)[0].path,
        others: doc_paths(ranked(docs, hash).skip(1)),
    }
}

proof fn lemma_keeper_keys_differ(a: SourceDocView, b: SourceDocView)
    requires
        paths::path_key(a.path) != paths::path_key(b.path),
    ensures
        keeper_key(a) != keeper_key(b),
{
    assert(keeper_key(a).skip(1) =~= paths::path_key(a.path));
    assert(keeper_key(b).skip(1) =~= paths::path_key(b.path));
}

proof fn lemma_group_differs(docs: Seq<SourceDocView>, hash: Seq<char>)
    requires
        paths_differ(docs),
    ensures
        paths_differ(group(docs, hash)),
    decreases docs.len(),
{
    if docs.len() > 0 {
        let part = docs.drop_last();
        let before = group(part, hash);
        let now = group(docs, hash);
        assert forall|i: int, j: int| 0 <= i < j < part.len() implies paths::path_key(
            (#[trigger] part[i]).path,
        ) != paths::path_key((#[trigger] part[j]).path) by {
            assert(part[i] == docs[i] && part[j] == docs[j]);
        }
        lemma_group_differs(part, hash);
        assert forall|i: int, j: int| 0 <= i < j < now.len() implies paths::path_key(
            (#[trigger] now[i]).path,
        ) != paths::path_key((#[trigger] now[j]).path) by {
            assert(now[i] == before[i]);
            if j < before.len() {
                assert(now[j] == before[j]);
            } else {
                assert(before.contains(before[i]));
                lemma_group(part, hash, before[i]);
                let k = choose|k: int| 0 <= k < part.len() && part[k] == before[i];
                assert(docs[k] == now[i] && docs[docs.len() - 1] == now[j]);
            }
        }
    }
}

/// The copies of a hash come in one order, however the documents came.
proof fn lemma_ranked_alike(a: Seq<SourceDocView>, b: Seq<SourceDocView>, hash: Seq<char>)
    requires
        paths_differ(a),
        paths_differ(b),
        forall|d: SourceDocView| a.contains(d) <==> b.contains(d),
    ensures
        ranked(a, hash) == ranked(b, hash),
{
    let x = group(a, hash);
    let y = group(b, hash);
    lemma_group_differs(a, hash);
    lemma_group_differs(b, hash);
    assert forall|i: int, j: int| 0 <= i < j < x.len() implies #[trigger] keeper_keys(x)[i]
        != #[trigger] keeper_keys(x)[j] by {
        lemma_keeper_keys_differ(x[i], x[j]);
    }
    assert forall|i: int, j: int| 0 <= i < j < y.len() implies #[trigger] keeper_keys(y)[i]
        != #[trigger] keeper_keys(y)[j] by {
        lemma_keeper_keys_differ(y[i], y[j]);
    }
    assert forall|d: SourceDocView| x.contains(d) <==> y.contains(d) by {
        lemma_group(a, hash, d);
        lemma_group(b, hash, d);
    }
    order::sorting_ignores_the_given_order(x, keeper_keys(x), y, keeper_keys(y));
}

/// What is kept are the first copies, each under its own hash.
proof fn lemma_kept(docs: Seq<SourceDocView>, x: SourceDocView)
    ensures
        keepers(docs, docs.len() as int).contains(x) <==> docs.contains(x) && ranked(
            docs,
            x.hash,
        )[0] == x,
{
    let n = docs.len() as int;
    let kept = keepers(docs, n);
    lemma_keepers(docs, n);
    if docs.contains(x) && ranked(docs, x.hash)[0] == x {
        let i = choose|i: int| 0 <= i < docs.len() && docs[i] == x;
        assert(docs[i].hash == x.hash);
        assert(kept.contains(ranked(docs, docs[i].hash)[0]));
    }
    if kept.contains(x) {
        let k = choose|k: int| 0 <= k < kept.len() && kept[k] == x;
        assert(docs.contains(kept[k]));
        let i = choose|i: int| 0 <= i < docs.len() && docs[i] == x;
        let first = ranked(docs, docs[i].hash)[0];
        assert(kept.contains(first));
        let m = choose|m: int| 0 <= m < kept.len() && kept[m] == first;
        lemma_ranked(docs, x.hash, x);
        assert(ranked(docs, x.hash).contains(first));
        lemma_ranked(docs, x.hash, first);
        if m < k {
            assert(kept[m].hash != kept[k].hash);
        } else if k < m {
            assert(kept[k].hash != kept[m].hash);
        }
    }
}

/// Documents of different hashes stand at different places.
proof fn lemma_hashes_apart(docs: Seq<SourceDocView>, a: SourceDocView, b: SourceDocView)
    requires
        paths_differ(docs),
        docs.contains(a),
        docs.contains(b),
        a.hash != b.hash,
    ensures
        paths::path_key(a.path) != paths::path_key(b.path),
{
    let i = choose|i: int| 0 <= i < docs.len() && docs[i] == a;
    let j = choose|j: int| 0 <= j < docs.len() && docs[j] == b;
    if i < j {
        assert(paths::path_key(docs[i].path) != paths::path_key(docs[j].path));
    } else {
        assert(paths::path_key(docs[j].path) != paths::path_key(docs[i].path));
    }
}

proof fn lemma_kept_differ(docs: Seq<SourceDocView>)
    requires
        paths_differ(docs),
    ensures
        ({
            let kept = keepers(docs, docs.len() as int);
            forall|i: int, j: int|
                0 <= i < j < kept.len() ==> #[trigger] path_keys(doc_paths(kept))[i]
                    != #[trigger] path_keys(doc_paths(kept))[j]
        }),
{
    let kept = keepers(docs, docs.len() as int);
    let keys = path_keys(doc_paths(kept));
    lemma_keepers(docs, docs.len() as int);
    assert forall|i: int, j: int| 0 <= i < j < kept.len() implies #[trigger] keys[i]
        != #[trigger] keys[j] by {
        assert(kept[i].hash != kept[j].hash);
        lemma_hashes_apart(docs, kept[i], kept[j]);
    }
}

/// What is listed as copies: a group for each hash that has more than one file.
#[verifier::spinoff_prover]
proof fn lemma_copies_listed(docs: Seq<SourceDocView>, n: int)
    requires
        0 <= n <= docs.len(),
    ensures
        forall|k: int|
            0 <= k < copies(docs, n).len() ==> exists|i: int|
                0 <= i < n && #[trigger] copies(docs, n)[k] == copies_of(
                    docs,
                    (#[trigger] docs[i]).hash,
                ) && ranked(docs, docs[i].hash).len() > 1,
        forall|a: int, b: int|
            0 <= a < b < copies(docs, n).len() ==> (#[trigger] copies(docs, n)[a]).hash != (
            #[trigger] copies(docs, n)[b]).hash,
    decreases n,
{
    if n > 0 {
        lemma_copies_listed(docs, n - 1);
        let before = copies(docs, n - 1);
        let now = copies(docs, n);
        let line = ranked(docs, docs[n - 1].hash);
        assert forall|k: int| 0 <= k < now.len() implies exists|i: int|
            0 <= i < n && #[trigger] now[k] == copies_of(docs, (#[trigger] docs[i]).hash) && ranked(
                docs,
                docs[i].hash,
            ).len() > 1 by {
            if k < before.len() {
                assert(now[k] == before[k]);
                let i = choose|i: int|
                    0 <= i < n - 1 && before[k] == copies_of(docs, (#[trigger] docs[i]).hash)
                        && ranked(docs, docs[i].hash).len() > 1;
                assert(now[k] == copies_of(docs, docs[i].hash));
            } else {
                assert(now[k] == copies_of(docs, docs[n - 1].hash));
            }
        }
        assert forall|a: int, b: int| 0 <= a < b < now.len() implies (#[trigger] now[a]).hash != (
        #[trigger] now[b]).hash by {
            assert(now[a] == before[a]);
            if b < before.len() {
                assert(now[b] == before[b]);
            } else {
                let i = choose|i: int|
                    0 <= i < n - 1 && before[a] == copies_of(docs, (#[trigger] docs[i]).hash)
                        && ranked(docs, docs[i].hash).len() > 1;
                assert(is_first_copy(docs, n - 1));
                assert(docs[i].hash != docs[n - 1].hash);
            }
        }
    }
}

/// The groups of one collection are those of the other.
proof fn lemma_copies_alike(a: Seq<SourceDocView>, b: Seq<SourceDocView>, g: DuplicateView)
    requires
        paths_differ(a),
        paths_differ(b),
        forall|d: SourceDocView| a.contains(d) <==> b.contains(d),
        copies(a, a.len() as int).contains(g),
    ensures
        copies(b, b.len() as int).contains(g),
{
    let listed = copies(a, a.len() as int);
    lemma_copies_listed(a, a.len() as int);
    let k = choose|k: int| 0 <= k < listed.len() && listed[k] == g;
    let i = choose|i: int|
        0 <= i < a.len() && listed[k] == copies_of(a, (#[trigger] a[i]).hash) && ranked(
            a,
            a[i].hash,
        ).len() > 1;
    let d = a[i];
    assert(a.contains(d));
    assert(b.contains(d));
    let j = choose|j: int| 0 <= j < b.len() && b[j] == d;
    lemma_ranked_alike(a, b, d.hash);
    lemma_copies(b, b.len() as int, j);
}

proof fn lemma_copies_differ(docs: Seq<SourceDocView>)
    requires
        paths_differ(docs),
    ensures
        ({
            let listed = copies(docs, docs.len() as int);
            forall|i: int, j: int|
                0 <= i < j < listed.len() ==> #[trigger] path_keys(kept_paths(listed))[i]
                    != #[trigger] path_keys(kept_paths(listed))[j]
        }),
{
    let n = docs.len() as int;
    let listed = copies(docs, n);
    let keys = path_keys(kept_paths(listed));
    lemma_copies_listed(docs, n);
    assert forall|i: int, j: int| 0 <= i < j < listed.len() implies #[trigger] keys[i]
        != #[trigger] keys[j] by {
        assert(listed[i].hash != listed[j].hash);
        let x = choose|x: int|
            0 <= x < n && listed[i] == copies_of(docs, (#[trigger] docs[x]).hash) && ranked(
                docs,
                docs[x].hash,
            ).len() > 1;
        let y = choose|y: int|
            0 <= y < n && listed[j] == copies_of(docs, (#[trigger] docs[y]).hash) && ranked(
                docs,
                docs[y].hash,
            ).len() > 1;
        let first = ranked(docs, docs[x].hash)[0];
        let second = ranked(docs, docs[y].hash)[0];
        assert(ranked(docs, docs[x].hash).contains(first));
        assert(ranked(docs, docs[y].hash).contains(second));
        lemma_ranked(docs, docs[x].hash, first);
        lemma_ranked(docs, docs[y].hash, second);
        lemma_hashes_apart(docs, first, second);
    }
}

/// What is kept, and what is listed as copies, does not depend on the order in
/// which the documents were found.
pub proof fn the_order_found_does_not_matter(a: Seq<SourceDocView>, b: Seq<SourceDocView>)
    requires
        paths_differ(a),
        paths_differ(b),
        forall|d: SourceDocView| a.contains(d) <==> b.contains(d),
    ensures
        unique_docs(a) == unique_docs(b),
        duplicate_groups(a) == duplicate_groups(b),
{
    let x = keepers(a, a.len() as int);
    let y = keepers(b, b.len() as int);
    assert forall|d: SourceDocView| x.contains(d) <==> y.contains(d) by {
        lemma_kept(a, d);
        lemma_kept(b, d);
        lemma_ranked_alike(a, b, d.hash);
    }
    lemma_kept_differ(a);
    lemma_kept_differ(b);
    order::sorting_ignores_the_given_order(
        x,
        path_keys(doc_paths(x)),
        y,
        path_keys(doc_paths(y)),
    );
    let v = copies(a, a.len() as int);
    let w = copies(b, b.len() as int);
    assert forall|g: DuplicateView| v.contains(g) <==> w.contains(g) by {
        if v.contains(g) {
            lemma_copies_alike(a, b, g);
        }
        if w.contains(g) {
            lemma_copies_alike(b, a, g);
        }
    }
    lemma_copies_differ(a);
    lemma_copies_differ(b);
    order::sorting_ignores_the_given_order(
        v,
        path_keys(kept_paths(v)),
        w,
        path_keys(kept_paths(w)),
    );
}

proof fn lemma_codes(a: char, b: char)
    ensures
        (a as i128 + 1) as i128 > 0,
        (a as i128 + 1) as i128 == (b as i128 + 1) as i128 ==> a == b,
{
}

/// What is named below a directory lies under it, and so does the directory itself; of
/// two neighbours neither lies under the other, though one name begin as the other does.
pub proof fn neighbours_do_not_lie_under_one_another(
    dir: Seq<char>,
    name: Seq<char>,
    other: Seq<char>,
)
    requires
        name.len() > 0,
        other.len() > 0,
        name != other,
        forall|i: int| 0 <= i < name.len() ==> #[trigger] name[i] != '/',
        forall|i: int| 0 <= i < other.len() ==> #[trigger] other[i] != '/',
        name != seq!['.'],
        name != seq!['.', '.'],
        other != seq!['.'],
        other != seq!['.', '.'],
    ensures
        lies_under(dir, dir),
        lies_under(paths::join(dir, name), dir),
        !lies_under(paths::join(dir, name), paths::join(dir, other)),
{
    paths::a_joined_name_leads_back(dir, name);
    paths::a_joined_name_leads_back(dir, other);
    let top = paths::path_key(dir);
    let a = paths::path_key(paths::join(dir, name));
    let b = paths::path_key(paths::join(dir, other));
    let x = paths::segment_key(name);
    let y = paths::segment_key(other);
    assert(a == top + x);
    assert(b == top + y);
    assert(top.take(top.len() as int) =~= top);
    assert(a.take(top.len() as int) =~= top);
    if lies_under(paths::join(dir, name), paths::join(dir, other)) {
        assert forall|i: int| 0 <= i < y.len() implies x[i] == #[trigger] y[i] by {
            assert(a.take(b.len() as int)[top.len() + i] == b[top.len() + i]);
        }
        let end = y.len() - 1;
        assert(y[end] == 0);
        assert(x[end] == 0);
        if end < x.len() - 1 {
            let c = name[end - 1];
            lemma_codes(c, c);
            assert(x[end] == (c as i128 + 1) as i128);
        }
        assert(x.len() == y.len());
        assert forall|i: int| 0 <= i < name.len() implies #[trigger] name[i] == other[i] by {
            assert(x[i + 1] == y[i + 1]);
            lemma_codes(name[i], other[i]);
            assert(x[i + 1] == (name[i] as i128 + 1) as i128);
            assert(y[i + 1] == (other[i] as i128 + 1) as i128);
        }
        assert(name =~= other);
    }
}

/// A file is a PDF by what follows the last full stop of its name, in letters of either
/// case, and by nothing else of its path.
pub proof fn documents_are_told_by_their_extensions(
    dir: Seq<char>,
    stem: Seq<char>,
    ext: Seq<char>,
)
    requires
        stem.len() > 0,
        ext.len() > 0,
        forall|i: int| 0 <= i < stem.len() ==> #[trigger] stem[i] != '/',
        forall|i: int| 0 <= i < ext.len() ==> #[trigger] ext[i] != '/' && ext[i] != '.',
    ensures
        named_pdf(paths::join(dir, stem + seq!['.'] + ext)) <==> ext.len() == 3 && (ext[0] == 'p'
            || ext[0] == 'P') && (ext[1] == 'd' || ext[1] == 'D') && (ext[2] == 'f' || ext[2]
            == 'F'),
{
    let name = stem + seq!['.'] + ext;
    paths::names_part_at_their_last_dot(stem, ext);
    assert forall|i: int| 0 <= i < name.len() implies #[trigger] name[i] != '/' by {
        if i < stem.len() {
            assert(name[i] == stem[i]);
        } else if i > stem.len() {
            assert(name[i] == ext[i - stem.len() - 1]);
        }
    }
    assert(name.last() == ext.last());
    assert(ext.last() != '.');
    assert(name != seq!['.'] && name != seq!['.', '.']) by {
        if name == seq!['.', '.'] {
            assert(name.last() == '.');
        }
    }
    paths::a_joined_name_leads_back(dir, name);
    assert(paths::extension(paths::join(dir, name)) == Some(ext));
    lemma_pdf_letters(ext);
}

proof fn lemma_pdf_letters(ext: Seq<char>)
    ensures
        text::same_ignoring_case(ext, "pdf"@) <==> ext.len() == 3 && (ext[0] == 'p' || ext[0]
            == 'P') && (ext[1] == 'd' || ext[1] == 'D') && (ext[2] == 'f' || ext[2] == 'F'),
{
    reveal_strlit("pdf");
    let low = text::ascii_lowered(ext);
    let pdf = text::ascii_lowered("pdf"@);
    assert(pdf.len() == 3);
    assert(pdf[0] == 'p' && pdf[1] == 'd' && pdf[2] == 'f');
    if low == pdf {
        assert(ext.len() == 3);
        assert(low[0] == text::ascii_lower(ext[0]));
        assert(low[1] == text::ascii_lower(ext[1]));
        assert(low[2] == text::ascii_lower(ext[2]));
    }
    if ext.len() == 3 && (ext[0] == 'p' || ext[0] == 'P') && (ext[1] == 'd' || ext[1] == 'D') && (
    ext[2] == 'f' || ext[2] == 'F') {
        assert(low =~= pdf);
    }
}

} // verus!
