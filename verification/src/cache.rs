//! A content-addressed digest cache.
//!
//! Scanning a collection through a local model is minutes of GPU time, so a
//! digest is keyed by file fingerprint and reused across runs. Renaming or
//! moving a source file does not invalidate its entry.

use crate::float;
use crate::float::reaches;
use crate::naming;
use crate::naming::is_unknown;
use crate::table::TextMap;
use crate::types;
use crate::types::{Digest, DigestView};
use vstd::prelude::*;

verus! {

pub struct Cache {
    entries: TextMap<Digest>,
}

/// What some entries say.
pub open spec fn digests_by_hash(m: Map<Seq<char>, Digest>) -> Map<Seq<char>, DigestView> {
    Map::new(|k: Seq<char>| m.contains_key(k), |k: Seq<char>| m[k]@)
}

/// The entries that a log leads to: a later entry for the same hash supersedes
/// an earlier one.
pub open spec fn from_log(log: Seq<DigestView>) -> Map<Seq<char>, DigestView>
    decreases log.len(),
{
    if log.len() == 0 {
        Map::empty()
    } else {
        from_log(log.drop_last()).insert(log.last().hash, log.last())
    }
}

/// The entries that a backend was sure enough of.
pub open spec fn sure_entries(m: Map<Seq<char>, DigestView>, confidence: u32) -> Map<
    Seq<char>,
    DigestView,
> {
    m.restrict(Set::new(|k: Seq<char>| m.contains_key(k) && float::at_least(m[k].confidence, confidence)))
}

/// The entries that a backend could name.
pub open spec fn named_entries(m: Map<Seq<char>, DigestView>) -> Map<Seq<char>, DigestView> {
    m.restrict(Set::new(|k: Seq<char>| m.contains_key(k) && !naming::says_nothing(m[k].title)))
}

impl View for Cache {
    type V = Map<Seq<char>, DigestView>;

    closed spec fn view(&self) -> Map<Seq<char>, DigestView> {
        digests_by_hash(self.entries@)
    }
}

impl Cache {
    /// Every entry stands under its own hash.
    #[verifier::type_invariant]
    spec fn wf(self) -> bool {
        forall|k: Seq<char>| #[trigger]
            self.entries@.contains_key(k) ==> self.entries@[k]@.hash == k
    }

    /// The cache that a log of digests leads to.
    pub fn open(log: &Vec<Digest>) -> (r: Self)
        ensures
            r@ == from_log(types::digest_views(log@)),
            forall|i: int|
                0 <= i < log@.len() && (forall|j: int|
                    i < j < log@.len() ==> (#[trigger] log@[j]).hash@ != log@[i].hash@)
                    ==> r@.contains_key((#[trigger] log@[i]).hash@) && r@[log@[i].hash@]
                    == log@[i]@,
    {
        let ghost all = types::digest_views(log@);
        proof {
            assert forall|i: int|
                0 <= i < log@.len() && (forall|j: int|
                    i < j < log@.len() ==> (#[trigger] log@[j]).hash@
                        != log@[i].hash@) implies from_log(all).contains_key(
                (#[trigger] log@[i]).hash@,
            ) && from_log(all)[log@[i].hash@] == log@[i]@ by {
                assert(all[i] == log@[i]@);
                assert forall|j: int| i < j < all.len() implies (#[trigger] all[j]).hash
                    != all[i].hash by {
                    assert(all[j] == log@[j]@);
                }
                the_last_entry_counts(all, i);
            }
        }
        let mut cache = Cache { entries: TextMap::new() };
        let mut i: usize = 0;
        assert(all.take(0) =~= Seq::<DigestView>::empty());
        assert(cache@ =~= Map::<Seq<char>, DigestView>::empty());
        while i < log.len()
            invariant
                all == types::digest_views(log@),
                i <= log@.len(),
                cache@ == from_log(all.take(i as int)),
            decreases log@.len() - i,
        {
            assert(all.take(i + 1).drop_last() =~= all.take(i as int));
            assert(all.take(i + 1).last() == log@[i as int]@);
            cache.put(log[i].clone());
            i = i + 1;
        }
        assert(all.take(i as int) =~= all);
        cache
    }

    pub fn get(&self, hash: &str) -> (r: Option<&Digest>)
        ensures
            match r {
                Some(d) => self@.contains_key(hash@) && d@ == self@[hash@],
                None => !self@.contains_key(hash@),
            },
    {
        self.entries.get(hash)
    }

    /// Remember a digest.
    pub fn put(&mut self, digest: Digest)
        ensures
            final(self)@ == old(self)@.insert(digest@.hash, digest@),
    {
        proof {
            use_type_invariant(&*self);
        }
        let hash = digest.hash.clone();
        let ghost before = self.entries@;
        let mut whole = Cache { entries: TextMap::new() };
        std::mem::swap(&mut whole, self);
        let Cache { mut entries } = whole;
        entries.insert(hash, digest);
        *self = Cache { entries };
        assert(self@ =~= digests_by_hash(before).insert(digest@.hash, digest@));
    }

    /// Keep some of the entries, by their places, and count the others.
    fn keep(&mut self, wanted: &Vec<bool>) -> (r: usize)
        requires
            wanted@.len() == old(self).entries.key_list().len(),
        ensures
            final(self)@ == old(self)@.restrict(
                Set::new(
                    |k: Seq<char>|
                        old(self).entries.key_list().contains(k)
                            && wanted@[old(self).entries.key_list().index_of(k)],
                ),
            ),
            r == old(self)@.dom().len() - final(self)@.dom().len(),
    {
        proof {
            use_type_invariant(&*self);
        }
        let n: usize = self.entries.len();
        let ghost keys = self.entries.key_list();
        let ghost values = self.entries.value_list();
        let ghost before = self@;
        let mut kept: TextMap<Digest> = TextMap::new();
        let mut i: usize = 0;
        assert(digests_by_hash(kept@) =~= Map::<Seq<char>, DigestView>::empty());
        while i < n
            invariant
                n == keys.len(),
                n == values.len(),
                wanted@.len() == n,
                keys == self.entries.key_list(),
                values == self.entries.value_list(),
                keys.no_duplicates(),
                i <= n,
                forall|k: Seq<char>| #[trigger]
                    digests_by_hash(kept@).contains_key(k) <==> exists|j: int|
                        0 <= j < i && keys[j] == k && #[trigger] wanted@[j],
                forall|j: int|
                    0 <= j < i && wanted@[j] ==> digests_by_hash(kept@)[#[trigger] keys[j]]
                        == values[j]@,
            decreases n - i,
        {
            if wanted[i] {
                let ghost start = digests_by_hash(kept@);
                let key = self.entries.key_at(i).clone();
                let value = self.entries.value_at(i).clone();
                kept.insert(key, value);
                proof {
                    let now = digests_by_hash(kept@);
                    assert(now =~= start.insert(key@, value@));
                    assert forall|k: Seq<char>| #[trigger] now.contains_key(k) <==> exists|j: int|
                        0 <= j < i + 1 && keys[j] == k && #[trigger] wanted@[j] by {
                        if k == key@ {
                            assert(keys[i as int] == k && wanted@[i as int]);
                        }
                        if start.contains_key(k) {
                            let j = choose|j: int|
                                0 <= j < i && keys[j] == k && #[trigger] wanted@[j];
                            assert(wanted@[j]);
                        }
                        if exists|j: int| 0 <= j < i + 1 && keys[j] == k && #[trigger] wanted@[j] {
                            let j = choose|j: int|
                                0 <= j < i + 1 && keys[j] == k && #[trigger] wanted@[j];
                            if j < i {
                                assert(start.contains_key(k));
                            }
                        }
                    }
                    assert forall|j: int| 0 <= j < i + 1 && wanted@[j] implies now[
                        #[trigger] keys[j]] == values[j]@ by {
                        if j < i {
                            assert(keys[j] != keys[i as int]);
                        }
                    }
                }
            }
            i = i + 1;
        }
        let m: usize = kept.len();
        let ghost pick = Set::new(
            |k: Seq<char>| keys.contains(k) && wanted@[keys.index_of(k)],
        );
        proof {
            let now = digests_by_hash(kept@);
            let goal = before.restrict(pick);
            assert forall|k: Seq<char>| #[trigger] now.contains_key(k) <==> goal.contains_key(k) by {
                if now.contains_key(k) {
                    let j = choose|j: int| 0 <= j < n && keys[j] == k && #[trigger] wanted@[j];
                    assert(keys.contains(k));
                    assert(keys.index_of(k) == j);
                    assert(before.contains_key(k));
                }
                if goal.contains_key(k) {
                    let j = keys.index_of(k);
                    assert(keys[j] == k && wanted@[j]);
                }
            }
            assert forall|k: Seq<char>| #[trigger] now.contains_key(k) implies now[k] == goal[k] by {
                let j = choose|j: int| 0 <= j < n && keys[j] == k && #[trigger] wanted@[j];
                assert(keys.contains(k));
                assert(keys.index_of(k) == j);
                assert(now[keys[j]] == values[j]@);
            }
            assert(now =~= goal);
            assert(now.dom() =~= kept@.dom());
            assert(before.dom() =~= self.entries@.dom());
            vstd::set_lib::lemma_len_subset(now.dom(), before.dom());
            assert forall|k: Seq<char>| #[trigger] kept@.contains_key(k) implies kept@[k]@.hash == k by {
                assert(now.contains_key(k));
                assert(now[k] == kept@[k]@ && goal[k] == before[k]);
                assert(self.entries@.contains_key(k));
            }
        }
        *self = Cache { entries: kept };
        n - m
    }

    /// Drop entries the backend was unsure of, so they can be read again — by a
    /// better backend, typically the vision pass over a document that yielded no
    /// text the first time. Returns how many were dropped.
    pub fn drop_below(&mut self, confidence: u32) -> (r: usize)
        ensures
            final(self)@ == sure_entries(old(self)@, confidence),
            forall|h: Seq<char>| #[trigger]
                final(self)@.contains_key(h) <==> old(self)@.contains_key(h) && float::at_least(
                    old(self)@[h].confidence,
                    confidence,
                ),
            forall|h: Seq<char>| #[trigger]
                final(self)@.contains_key(h) ==> final(self)@[h] == old(self)@[h],
            r == old(self)@.dom().len() - final(self)@.dom().len(),
    {
        let n: usize = self.entries.len();
        let mut wanted: Vec<bool> = Vec::new();
        let mut i: usize = 0;
        while i < n
            invariant
                n == self.entries.key_list().len(),
                n == self.entries.value_list().len(),
                i <= n,
                wanted@.len() == i,
                forall|j: int|
                    0 <= j < i ==> #[trigger] wanted@[j] == float::at_least(
                        self.entries.value_list()[j]@.confidence,
                        confidence,
                    ),
            decreases n - i,
        {
            wanted.push(reaches(self.entries.value_at(i).confidence, confidence));
            i = i + 1;
        }
        let ghost before = self@;
        let ghost keys = self.entries.key_list();
        let dropped: usize = self.keep(&wanted);
        assert(self@ =~= sure_entries(before, confidence));
        dropped
    }

    /// Drop entries the backend could not name, so a higher-resolution render
    /// or a different backend can try again. Returns how many were dropped.
    pub fn drop_unnamed(&mut self) -> (r: usize)
        ensures
            final(self)@ == named_entries(old(self)@),
            forall|h: Seq<char>| #[trigger]
                final(self)@.contains_key(h) <==> old(self)@.contains_key(h)
                    && !naming::says_nothing(old(self)@[h].title),
            forall|h: Seq<char>| #[trigger]
                final(self)@.contains_key(h) ==> final(self)@[h] == old(self)@[h],
            r == old(self)@.dom().len() - final(self)@.dom().len(),
    {
        let n: usize = self.entries.len();
        let mut wanted: Vec<bool> = Vec::new();
        let mut i: usize = 0;
        while i < n
            invariant
                n == self.entries.key_list().len(),
                n == self.entries.value_list().len(),
                i <= n,
                wanted@.len() == i,
                forall|j: int|
                    0 <= j < i ==> #[trigger] wanted@[j] == !naming::says_nothing(
                        self.entries.value_list()[j]@.title,
                    ),
            decreases n - i,
        {
            wanted.push(!is_unknown(self.entries.value_at(i).title.as_str()));
            i = i + 1;
        }
        let ghost before = self@;
        let dropped: usize = self.keep(&wanted);
        assert(self@ =~= named_entries(before));
        dropped
    }

    /// Drop every entry. Used by `--rescan`.
    pub fn clear(&mut self)
        ensures
            final(self)@ == Map::<Seq<char>, DigestView>::empty(),
    {
        *self = Cache { entries: TextMap::new() };
        assert(self@ =~= Map::<Seq<char>, DigestView>::empty());
    }

    /// The live entries, each once, for writing the log again.
    pub fn live(&self) -> (r: Vec<Digest>)
        ensures
            from_log(types::digest_views(r@)) == self@,
            r@.len() == self@.dom().len(),
    {
        proof {
            use_type_invariant(self);
        }
        let n: usize = self.entries.len();
        let ghost keys = self.entries.key_list();
        let ghost values = self.entries.value_list();
        let mut out: Vec<Digest> = Vec::new();
        let mut i: usize = 0;
        while i < n
            invariant
                n == keys.len(),
                n == values.len(),
                keys == self.entries.key_list(),
                values == self.entries.value_list(),
                i <= n,
                out@.len() == i,
                forall|j: int| 0 <= j < i ==> (#[trigger] out@[j])@ == values[j]@,
            decreases n - i,
        {
            out.push(self.entries.value_at(i).clone());
            i = i + 1;
        }
        proof {
            let log = types::digest_views(out@);
            assert forall|j: int| 0 <= j < n implies (#[trigger] log[j]).hash == keys[j] by {
                assert(keys.contains(keys[j]));
                assert(keys.index_of(keys[j]) == j);
                assert(self.entries@.contains_key(keys[j]));
            }
            lemma_log_of_distinct(log, keys, n as int);
            assert(log.take(n as int) =~= log);
            let m = from_log(log);
            assert forall|k: Seq<char>| #[trigger] m.contains_key(k) <==> self@.contains_key(k) by {
                if self@.contains_key(k) {
                    let j = keys.index_of(k);
                    assert(keys[j] == k);
                }
            }
            assert forall|k: Seq<char>| #[trigger] m.contains_key(k) implies m[k] == self@[k] by {
                let j = choose|j: int| 0 <= j < n && #[trigger] keys[j] == k;
                assert(keys.index_of(k) == j);
                assert(m[keys[j]] == log[j]);
            }
            assert(m =~= self@);
            assert(self@.dom() =~= self.entries@.dom());
        }
        out
    }
}

proof fn lemma_log_of_distinct(log: Seq<DigestView>, keys: Seq<Seq<char>>, n: int)
    requires
        0 <= n <= log.len(),
        log.len() == keys.len(),
        keys.no_duplicates(),
        forall|j: int| 0 <= j < log.len() ==> (#[trigger] log[j]).hash == keys[j],
    ensures
        forall|k: Seq<char>| #[trigger]
            from_log(log.take(n)).contains_key(k) <==> exists|j: int|
                0 <= j < n && #[trigger] keys[j] == k,
        forall|j: int| 0 <= j < n ==> from_log(log.take(n))[#[trigger] keys[j]] == log[j],
    decreases n,
{
    if n > 0 {
        lemma_log_of_distinct(log, keys, n - 1);
        let part = log.take(n - 1);
        let next = log.take(n);
        assert(next.drop_last() =~= part);
        assert(next.last() == log[n - 1]);
        let before = from_log(part);
        let now = from_log(next);
        assert(now == before.insert(keys[n - 1], log[n - 1]));
        assert forall|k: Seq<char>| #[trigger] now.contains_key(k) <==> exists|j: int|
            0 <= j < n && #[trigger] keys[j] == k by {
            if before.contains_key(k) {
                let j = choose|j: int| 0 <= j < n - 1 && #[trigger] keys[j] == k;
                assert(keys[j] == k);
            }
            if exists|j: int| 0 <= j < n && #[trigger] keys[j] == k {
                let j = choose|j: int| 0 <= j < n && #[trigger] keys[j] == k;
                if j < n - 1 {
                    assert(before.contains_key(k));
                }
            }
        }
        assert forall|j: int| 0 <= j < n implies now[#[trigger] keys[j]] == log[j] by {
            if j < n - 1 {
                assert(keys[j] != keys[n - 1]);
            }
        }
    } else {
        assert(log.take(0) =~= Seq::<DigestView>::empty());
    }
}

/// Of the entries of a log with one hash, the last one counts.
pub proof fn the_last_entry_counts(log: Seq<DigestView>, i: int)
    requires
        0 <= i < log.len(),
        forall|j: int| i < j < log.len() ==> (#[trigger] log[j]).hash != log[i].hash,
    ensures
        from_log(log).contains_key(log[i].hash),
        from_log(log)[log[i].hash] == log[i],
    decreases log.len(),
{
    if i < log.len() - 1 {
        let front = log.drop_last();
        assert(log[log.len() - 1].hash != log[i].hash);
        assert forall|j: int| i < j < front.len() implies (#[trigger] front[j]).hash
            != front[i].hash by {
            assert(log[j].hash != log[i].hash);
        }
        the_last_entry_counts(front, i);
    }
}

/// A digest that was put can be got, whatever is put under other hashes later.
pub proof fn what_is_put_can_be_got(
    m: Map<Seq<char>, DigestView>,
    d: DigestView,
    later: DigestView,
)
    ensures
        m.insert(d.hash, d)[d.hash] == d,
        later.hash != d.hash ==> m.insert(d.hash, d).insert(later.hash, later)[d.hash] == d,
        later.hash == d.hash ==> m.insert(d.hash, d).insert(later.hash, later)[d.hash] == later,
{
}

// ---------------------------------------------------------------------------
// The log
// ---------------------------------------------------------------------------

/// What ends a line of the log.
pub const LINE_END: u8 = 10;

/// Bytes parted at every line end; what follows the last one is the last piece.
pub open spec fn pieces(bytes: Seq<u8>) -> Seq<Seq<u8>>
    decreases bytes.len(),
{
    if bytes.len() == 0 {
        seq![seq![]]
    } else {
        let front = pieces(bytes.drop_last());
        if bytes.last() == LINE_END {
            front.push(seq![])
        } else {
            front.drop_last().push(front.last().push(bytes.last()))
        }
    }
}

/// The lines of a log. A last one that was cut short counts, too.
pub open spec fn lines_of(bytes: Seq<u8>) -> Seq<Seq<u8>> {
    let all = pieces(bytes);
    if all.last().len() == 0 {
        all.drop_last()
    } else {
        all
    }
}

/// The digests of some lines, as far as they can be read.
pub open spec fn readable(
    lines: Seq<Seq<u8>>,
    read: spec_fn(Seq<u8>) -> Option<DigestView>,
) -> Seq<DigestView>
    decreases lines.len(),
{
    if lines.len() == 0 {
        seq![]
    } else {
        let front = readable(lines.drop_last(), read);
        match read(lines.last()) {
            Some(d) => front.push(d),
            None => front,
        }
    }
}

/// The entries that the bytes of a log lead to, when lines are read so.
pub open spec fn restored(
    bytes: Seq<u8>,
    read: spec_fn(Seq<u8>) -> Option<DigestView>,
) -> Map<Seq<char>, DigestView> {
    from_log(readable(lines_of(bytes), read))
}

/// The last byte there is.
pub open spec fn last_byte(bytes: Seq<u8>) -> Option<u8> {
    if bytes.len() == 0 {
        None
    } else {
        Some(bytes.last())
    }
}

/// What is appended to a log to add a line, by the last byte that it has: a killed
/// run may have left its last line without an end.
pub open spec fn added(last: Option<u8>, line: Seq<u8>) -> Seq<u8> {
    let start = if last is None || last == Some(LINE_END) {
        seq![]
    } else {
        seq![LINE_END]
    };
    start + line.push(LINE_END)
}

/// A log that holds some lines.
pub open spec fn log_text(lines: Seq<Seq<u8>>) -> Seq<u8>
    decreases lines.len(),
{
    if lines.len() == 0 {
        seq![]
    } else {
        log_text(lines.drop_last()) + lines.last().push(LINE_END)
    }
}

pub open spec fn byte_lists(v: Seq<Vec<u8>>) -> Seq<Seq<u8>> {
    Seq::new(v.len(), |i: int| v[i]@)
}

/// The lines of a log.
pub fn log_lines(bytes: &[u8]) -> (r: Vec<Vec<u8>>)
    ensures
        byte_lists(r@) == lines_of(bytes@),
{
    let mut out: Vec<Vec<u8>> = Vec::new();
    let mut piece: Vec<u8> = Vec::new();
    let mut i: usize = 0;
    assert(bytes@.take(0) =~= seq![]);
    assert(byte_lists(out@).push(piece@) =~= seq![seq![]]);
    while i < bytes.len()
        invariant
            i <= bytes@.len(),
            byte_lists(out@).push(piece@) == pieces(bytes@.take(i as int)),
        decreases bytes@.len() - i,
    {
        let b: u8 = bytes[i];
        let ghost before = byte_lists(out@);
        let ghost old_piece = piece@;
        let ghost front = pieces(bytes@.take(i as int));
        proof {
            assert(bytes@.take(i + 1).drop_last() =~= bytes@.take(i as int));
            assert(front.drop_last() =~= before);
            assert(front.last() == old_piece);
        }
        if b == LINE_END {
            let ghost start = out@;
            out.push(piece);
            piece = Vec::new();
            assert(byte_lists(out@) =~= byte_lists(start).push(old_piece));
            assert(byte_lists(out@).push(piece@) =~= front.push(seq![]));
        } else {
            piece.push(b);
            assert(byte_lists(out@).push(piece@) =~= front.drop_last().push(old_piece.push(b)));
        }
        i = i + 1;
    }
    assert(bytes@.take(i as int) =~= bytes@);
    let ghost all = pieces(bytes@);
    assert(all.last() == piece@);
    if piece.len() > 0 {
        let ghost start = out@;
        let ghost rest = piece@;
        out.push(piece);
        assert(byte_lists(out@) =~= byte_lists(start).push(rest));
    } else {
        assert(all.drop_last() =~= byte_lists(out@));
    }
    out
}

/// What to append to a log to add a line.
pub fn log_addition(last: Option<u8>, line: &[u8]) -> (r: Vec<u8>)
    ensures
        r@ == added(last, line@),
{
    let mut out: Vec<u8> = Vec::new();
    if let Some(b) = last {
        if b != LINE_END {
            out.push(LINE_END);
        }
    }
    out.extend_from_slice(line);
    out.push(LINE_END);
    assert(out@ =~= added(last, line@));
    out
}

/// A whole log of some lines.
pub fn log_of(lines: &Vec<Vec<u8>>) -> (r: Vec<u8>)
    ensures
        r@ == log_text(byte_lists(lines@)),
{
    let ghost all = byte_lists(lines@);
    let mut out: Vec<u8> = Vec::new();
    let mut i: usize = 0;
    assert(all.take(0) =~= seq![]);
    while i < lines.len()
        invariant
            all == byte_lists(lines@),
            i <= lines@.len(),
            out@ == log_text(all.take(i as int)),
        decreases lines@.len() - i,
    {
        let ghost before = out@;
        out.extend_from_slice(lines[i].as_slice());
        out.push(LINE_END);
        proof {
            assert(all.take(i + 1).drop_last() =~= all.take(i as int));
            assert(out@ =~= before + all[i as int].push(LINE_END));
        }
        i = i + 1;
    }
    assert(all.take(i as int) =~= all);
    out
}

proof fn lemma_pieces(bytes: Seq<u8>)
    ensures
        pieces(bytes).len() > 0,
        pieces(bytes).last().len() == 0 <==> bytes.len() == 0 || bytes.last() == LINE_END,
    decreases bytes.len(),
{
    if bytes.len() > 0 {
        lemma_pieces(bytes.drop_last());
    }
}

/// Bytes that hold no line end lengthen the last piece.
proof fn lemma_pieces_longer(bytes: Seq<u8>, more: Seq<u8>)
    requires
        !more.contains(LINE_END),
    ensures
        pieces(bytes + more) == pieces(bytes).drop_last().push(pieces(bytes).last() + more),
    decreases more.len(),
{
    let all = bytes + more;
    lemma_pieces(bytes);
    if more.len() == 0 {
        assert(all =~= bytes);
        assert(pieces(bytes).last() + more =~= pieces(bytes).last());
        assert(pieces(bytes).drop_last().push(pieces(bytes).last()) =~= pieces(bytes));
    } else {
        let part = more.drop_last();
        assert(more[more.len() - 1] == more.last());
        assert(!part.contains(LINE_END)) by {
            if part.contains(LINE_END) {
                let i = choose|i: int| 0 <= i < part.len() && part[i] == LINE_END;
                assert(more[i] == LINE_END);
            }
        }
        lemma_pieces_longer(bytes, part);
        assert(all.drop_last() =~= bytes + part);
        assert(all.last() == more.last());
        let front = pieces(bytes + part);
        assert(front.drop_last() =~= pieces(bytes).drop_last());
        assert(front.last().push(more.last()) =~= pieces(bytes).last() + more);
    }
}

/// A line that is added to a log becomes its last, whatever the log holds and
/// however it ends.
pub proof fn added_lines_stand_by_themselves(bytes: Seq<u8>, line: Seq<u8>)
    requires
        !line.contains(LINE_END),
    ensures
        lines_of(bytes + added(last_byte(bytes), line)) == lines_of(bytes).push(line),
{
    let all = bytes + added(last_byte(bytes), line);
    lemma_pieces(bytes);
    let open = bytes.len() > 0 && bytes.last() != LINE_END;
    let base = if open {
        bytes.push(LINE_END)
    } else {
        bytes
    };
    if open {
        assert(base.drop_last() =~= bytes);
        assert(pieces(base) == pieces(bytes).push(seq![]));
    }
    assert(pieces(base).last().len() == 0);
    assert(pieces(base).drop_last() =~= lines_of(bytes));
    let longer = base + line;
    lemma_pieces_longer(base, line);
    assert(pieces(base).last() + line =~= line);
    assert(all =~= longer.push(LINE_END));
    assert(all.drop_last() =~= longer);
    assert(pieces(all) == pieces(longer).push(seq![]));
    assert(pieces(all).drop_last() =~= lines_of(bytes).push(line));
}

/// What was put is there after a restart, also behind a line that a killed run
/// left cut short; and nothing else changes.
pub proof fn what_is_put_survives_a_restart(
    bytes: Seq<u8>,
    line: Seq<u8>,
    d: DigestView,
    read: spec_fn(Seq<u8>) -> Option<DigestView>,
)
    requires
        !line.contains(LINE_END),
        read(line) == Some(d),
    ensures
        restored(bytes + added(last_byte(bytes), line), read) == restored(bytes, read).insert(
            d.hash,
            d,
        ),
{
    added_lines_stand_by_themselves(bytes, line);
    let before = lines_of(bytes);
    assert(before.push(line).drop_last() =~= before);
    let log = readable(before, read);
    assert(log.push(d).drop_last() =~= log);
}

/// A log that was written out whole reads back line by line.
pub proof fn a_log_reads_back(lines: Seq<Seq<u8>>)
    requires
        forall|i: int| 0 <= i < lines.len() ==> !(#[trigger] lines[i]).contains(LINE_END),
    ensures
        lines_of(log_text(lines)) == lines,
    decreases lines.len(),
{
    if lines.len() > 0 {
        let part = lines.drop_last();
        let line = lines.last();
        assert forall|i: int| 0 <= i < part.len() implies !(#[trigger] part[i]).contains(LINE_END) by {
            assert(part[i] == lines[i]);
        }
        a_log_reads_back(part);
        let front = log_text(part);
        assert(!lines[lines.len() - 1].contains(LINE_END));
        added_lines_stand_by_themselves(front, line);
        if front.len() > 0 {
            assert(front.last() == LINE_END);
        }
        assert(added(last_byte(front), line) =~= line.push(LINE_END));
        assert(part.push(line) =~= lines);
    } else {
        assert(lines_of(log_text(lines)) =~= lines);
    }
}

} // verus!
