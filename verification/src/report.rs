//! Human-readable rendering of a plan, for the review step.

use crate::float;
use crate::float::print_two_decimals;
use crate::number;
use crate::number::{decimal_usize, decimal_wide};
use crate::order;
use crate::order::sorts_before;
use crate::paths;
use crate::paths::name_of;
use crate::pipeline;
use crate::pipeline::UNSORTED;
use crate::scan;
use crate::text;
use crate::text::{Class, chars_of, own, same, same_chars, split_chars, text_of};
use crate::types;
use crate::types::{Assignment, AssignmentView, Duplicate, DuplicateView, LinkMode, Plan};
use vstd::prelude::*;
use vstd::string::StringExecFns;

verus! {

/// `n` steps of indentation.
pub open spec fn stepped(n: nat) -> Seq<char>
    decreases n,
{
    if n == 0 {
        seq![]
    } else {
        stepped((n - 1) as nat) + "  "@
    }
}

fn add_steps(out: &mut String, n: usize)
    ensures
        final(out)@ == old(out)@ + stepped(n as nat),
{
    let ghost start = out@;
    let mut i: usize = 0;
    assert(out@ =~= start + stepped(0));
    while i < n
        invariant
            i <= n,
            out@ == start + stepped(i as nat),
        decreases n - i,
    {
        out.append("  ");
        assert(out@ =~= start + stepped((i + 1) as nat));
        i = i + 1;
    }
}

/// A confidence with two decimals.
pub fn print_confidence(confidence: u32) -> (r: String)
    ensures
        r@ == float::two_decimals(confidence),
{
    print_two_decimals(confidence)
}

/// How many leading segments two paths share.
pub open spec fn shared_segments(a: Seq<Seq<char>>, b: Seq<Seq<char>>) -> nat
    decreases a.len(),
{
    if a.len() == 0 || b.len() == 0 || a[0] != b[0] {
        0
    } else {
        1 + shared_segments(a.drop_first(), b.drop_first())
    }
}

/// The line for one segment of a folder; the last one tells how many documents
/// the folder holds.
pub open spec fn segment_line(segments: Seq<Seq<char>>, depth: int, docs: nat) -> Seq<char> {
    if depth == segments.len() - 1 {
        stepped(depth as nat) + segments[depth] + "/  ("@ + number::digits(docs) + ")\n"@
    } else {
        stepped(depth as nat) + segments[depth] + "/\n"@
    }
}

/// The lines for the segments of a folder from one depth on.
pub open spec fn segment_lines(
    segments: Seq<Seq<char>>,
    from: int,
    to: int,
    docs: nat,
) -> Seq<char>
    decreases to - from,
{
    if to <= from {
        seq![]
    } else {
        segment_lines(segments, from, to - 1, docs) + segment_line(segments, to - 1, docs)
    }
}

pub open spec fn name_or_nothing(path: Seq<char>) -> Seq<char> {
    match paths::file_name(path) {
        Some(name) => name,
        None => seq![],
    }
}

/// The line for a document; its old name is shown only when it is renamed.
pub open spec fn document_lines(a: AssignmentView, depth: nat) -> Seq<char> {
    let to = name_or_nothing(a.dest);
    let from = name_or_nothing(a.source);
    let line = stepped(depth) + to + "  ["@ + float::two_decimals(a.confidence) + "]\n"@;
    if from == to {
        line
    } else {
        line + stepped(depth) + "  was: "@ + from + "\n"@
    }
}

/// The lines for those of some documents that are filed into a folder.
pub open spec fn folder_documents(v: Seq<AssignmentView>, leaf: Seq<char>, depth: nat) -> Seq<char>
    decreases v.len(),
{
    if v.len() == 0 {
        seq![]
    } else {
        let before = folder_documents(v.drop_last(), leaf, depth);
        if v.last().leaf == leaf {
            before + document_lines(v.last(), depth)
        } else {
            before
        }
    }
}

/// How many documents are filed into a folder.
pub open spec fn folder_count(v: Seq<AssignmentView>, leaf: Seq<char>) -> nat
    decreases v.len(),
{
    if v.len() == 0 {
        0
    } else {
        folder_count(v.drop_last(), leaf) + (if v.last().leaf == leaf {
            1nat
        } else {
            0nat
        })
    }
}

/// The lines for the first `n` of some folders: of each, only the segments that
/// differ from the folder before it.
pub open spec fn folder_lines(
    folders: Seq<Seq<char>>,
    n: int,
    v: Seq<AssignmentView>,
    full: bool,
) -> Seq<char>
    decreases n,
{
    if n <= 0 {
        seq![]
    } else {
        let segments = text::split(folders[n - 1], '/');
        let previous = if n > 1 {
            text::split(folders[n - 2], '/')
        } else {
            seq![]
        };
        let lines = folder_lines(folders, n - 1, v, full) + segment_lines(
            segments,
            shared_segments(segments, previous) as int,
            segments.len() as int,
            folder_count(v, folders[n - 1]),
        );
        if full {
            lines + folder_documents(v, folders[n - 1], segments.len())
        } else {
            lines
        }
    }
}

pub open spec fn leaves_of(v: Seq<AssignmentView>) -> Seq<Seq<char>> {
    Seq::new(v.len(), |i: int| v[i].leaf)
}

/// The order in which paths are drawn: by their first different segment, a folder
/// before what lies in it.
pub open spec fn segments_before(a: Seq<Seq<char>>, b: Seq<Seq<char>>) -> bool
    decreases a.len(),
{
    if b.len() == 0 {
        false
    } else if a.len() == 0 {
        true
    } else if a[0] != b[0] {
        order::text_before(a[0], b[0])
    } else {
        segments_before(a.drop_first(), b.drop_first())
    }
}

pub open spec fn drawn_before(a: Seq<char>, b: Seq<char>) -> bool {
    segments_before(text::split(a, '/'), text::split(b, '/'))
}

/// Whether folders are listed as they are drawn, each once.
pub open spec fn in_drawing_order(folders: Seq<Seq<char>>) -> bool {
    forall|i: int, j: int|
        0 <= i < j < folders.len() ==> drawn_before(#[trigger] folders[i], #[trigger] folders[j])
}

/// Whether some folders are those that documents are filed into, in order.
pub open spec fn are_folders(folders: Seq<Seq<char>>, v: Seq<AssignmentView>) -> bool {
    &&& in_drawing_order(folders)
    &&& forall|x: Seq<char>| #[trigger] folders.contains(x) <==> leaves_of(v).contains(x)
}

proof fn lemma_segments_transitive(a: Seq<Seq<char>>, b: Seq<Seq<char>>, c: Seq<Seq<char>>)
    requires
        segments_before(a, b),
        segments_before(b, c),
    ensures
        segments_before(a, c),
    decreases a.len(),
{
    if a.len() > 0 {
        if a[0] == b[0] && b[0] == c[0] {
            lemma_segments_transitive(a.drop_first(), b.drop_first(), c.drop_first());
        } else if a[0] != b[0] && b[0] != c[0] {
            order::lemma_lex_transitive(
                order::codes(a[0]),
                order::codes(b[0]),
                order::codes(c[0]),
            );
            order::lemma_lex_irreflexive(order::codes(a[0]));
        }
    }
}

proof fn lemma_segments_irreflexive(a: Seq<Seq<char>>)
    ensures
        !segments_before(a, a),
    decreases a.len(),
{
    if a.len() > 0 {
        lemma_segments_irreflexive(a.drop_first());
    }
}

proof fn lemma_segments_total(a: Seq<Seq<char>>, b: Seq<Seq<char>>)
    ensures
        segments_before(a, b) || segments_before(b, a) || a == b,
    decreases a.len(),
{
    if a.len() == 0 || b.len() == 0 {
        if a.len() == 0 && b.len() == 0 {
            assert(a =~= b);
        }
    } else if a[0] == b[0] {
        lemma_segments_total(a.drop_first(), b.drop_first());
        if a.drop_first() == b.drop_first() {
            assert(a =~= seq![a[0]] + a.drop_first());
            assert(b =~= seq![b[0]] + b.drop_first());
        }
    } else {
        order::lemma_lex_total(order::codes(a[0]), order::codes(b[0]));
        if order::codes(a[0]) == order::codes(b[0]) {
            order::lemma_codes_injective(a[0], b[0]);
        }
    }
}

/// Paths with the same segments are the same path.
proof fn lemma_split_injective(a: Seq<char>, b: Seq<char>)
    requires
        text::split(a, '/') == text::split(b, '/'),
    ensures
        a == b,
    decreases a.len(),
{
    let n = text::leading(a, Class::IsNot('/')) as int;
    let m = text::leading(b, Class::IsNot('/')) as int;
    let x = text::split(a, '/');
    let y = text::split(b, '/');
    text::lemma_leading_facts(a, Class::IsNot('/'));
    text::lemma_leading_facts(b, Class::IsNot('/'));
    if n < a.len() {
        lemma_split_some(a.skip(n + 1));
    }
    if m < b.len() {
        lemma_split_some(b.skip(m + 1));
    }
    assert(x[0] == y[0]);
    if n < a.len() && m < b.len() {
        assert(x.drop_first() =~= text::split(a.skip(n + 1), '/'));
        assert(y.drop_first() =~= text::split(b.skip(m + 1), '/'));
        lemma_split_injective(a.skip(n + 1), b.skip(m + 1));
        assert(a =~= a.take(n) + seq!['/'] + a.skip(n + 1));
        assert(b =~= b.take(m) + seq!['/'] + b.skip(m + 1));
    } else if n < a.len() {
        assert(x.len() > 1 && y.len() == 1);
    } else if m < b.len() {
        assert(x.len() == 1 && y.len() > 1);
    }
}

proof fn lemma_split_some(s: Seq<char>)
    ensures
        text::split(s, '/').len() > 0,
{
}

fn comes_first(a: &str, b: &str) -> (r: bool)
    ensures
        r == drawn_before(a@, b@),
{
    let x = split_chars(chars_of(a).as_slice(), '/');
    let y = split_chars(chars_of(b).as_slice(), '/');
    let ghost p = text::char_lists(x@);
    let ghost q = text::char_lists(y@);
    let mut n: usize = 0;
    assert(p.skip(0) =~= p && q.skip(0) =~= q);
    while n < x.len() && n < y.len() && same_chars(x[n].as_slice(), y[n].as_slice())
        invariant
            p == text::char_lists(x@),
            q == text::char_lists(y@),
            n <= x@.len(),
            n <= y@.len(),
            segments_before(p, q) == segments_before(p.skip(n as int), q.skip(n as int)),
        decreases x@.len() - n,
    {
        assert(p.skip(n as int)[0] == x@[n as int]@ && q.skip(n as int)[0] == y@[n as int]@);
        assert(p.skip(n as int).drop_first() =~= p.skip(n + 1));
        assert(q.skip(n as int).drop_first() =~= q.skip(n + 1));
        n = n + 1;
    }
    if n == y.len() {
        return false;
    }
    if n == x.len() {
        return true;
    }
    assert(p.skip(n as int)[0] == x@[n as int]@ && q.skip(n as int)[0] == y@[n as int]@);
    sorts_before(text_of(x[n].as_slice()).as_str(), text_of(y[n].as_slice()).as_str())
}

/// Add a folder to those listed as they are drawn.
fn insert_folder(list: &mut Vec<String>, item: String)
    requires
        in_drawing_order(text::texts(old(list)@)),
    ensures
        in_drawing_order(text::texts(final(list)@)),
        forall|x: Seq<char>|
            #![trigger text::texts(final(list)@).contains(x)]
            text::texts(final(list)@).contains(x) <==> (x == item@ || text::texts(
                old(list)@,
            ).contains(x)),
{
    let ghost start = text::texts(list@);
    let mut i: usize = 0;
    while i < list.len() && comes_first(list[i].as_str(), item.as_str())
        invariant
            i <= list@.len(),
            start == text::texts(list@),
            forall|j: int| 0 <= j < i ==> drawn_before(#[trigger] start[j], item@),
        decreases list@.len() - i,
    {
        assert(start[i as int] == list@[i as int]@);
        i = i + 1;
    }
    if i < list.len() && same(list[i].as_str(), item.as_str()) {
        proof {
            assert(start[i as int] == item@);
            assert(start.contains(item@));
        }
        return;
    }
    let ghost text = item@;
    proof {
        if i < list@.len() {
            assert(start[i as int] == list@[i as int]@);
            lemma_segments_total(text::split(start[i as int], '/'), text::split(text, '/'));
            if text::split(start[i as int], '/') == text::split(text, '/') {
                lemma_split_injective(start[i as int], text);
            }
            assert forall|j: int| i <= j < start.len() implies drawn_before(
                text,
                #[trigger] start[j],
            ) by {
                if j > i {
                    assert(drawn_before(start[i as int], start[j]));
                    lemma_segments_transitive(
                        text::split(text, '/'),
                        text::split(start[i as int], '/'),
                        text::split(start[j], '/'),
                    );
                }
            }
        }
    }
    list.insert(i, item);
    proof {
        let done = text::texts(list@);
        assert(done =~= start.insert(i as int, text));
        assert forall|a: int, b: int| 0 <= a < b < done.len() implies drawn_before(
            #[trigger] done[a],
            #[trigger] done[b],
        ) by {
            let x = if a < i {
                a
            } else {
                a - 1
            };
            let y = if b < i {
                b
            } else {
                b - 1
            };
            if a == i {
                assert(done[b] == start[y]);
            } else if b == i {
                assert(done[a] == start[x]);
            } else {
                assert(done[a] == start[x] && done[b] == start[y]);
            }
        }
        assert forall|x: Seq<char>| #![trigger done.contains(x)] done.contains(x) <==> (x == text
            || start.contains(x)) by {
            if done.contains(x) {
                let j = choose|j: int| 0 <= j < done.len() && done[j] == x;
                if j < i {
                    assert(start[j] == x);
                } else if j > i {
                    assert(start[j - 1] == x);
                }
            }
            if start.contains(x) {
                let j = choose|j: int| 0 <= j < start.len() && start[j] == x;
                if j < i {
                    assert(done[j] == x);
                } else {
                    assert(done[j + 1] == x);
                }
            }
            if x == text {
                assert(done[i as int] == x);
            }
        }
    }
}

fn folders_used(v: &Vec<Assignment>) -> (r: Vec<String>)
    ensures
        are_folders(text::texts(r@), types::assignment_views(v@)),
{
    let ghost all = types::assignment_views(v@);
    let mut out: Vec<String> = Vec::new();
    let mut i: usize = 0;
    assert(text::texts(out@) =~= Seq::<Seq<char>>::empty());
    while i < v.len()
        invariant
            all == types::assignment_views(v@),
            i <= v@.len(),
            are_folders(text::texts(out@), all.take(i as int)),
        decreases v@.len() - i,
    {
        let ghost before = leaves_of(all.take(i as int));
        let ghost leaf = v@[i as int].leaf@;
        insert_folder(&mut out, v[i].leaf.clone());
        proof {
            let now = leaves_of(all.take(i + 1));
            assert(now =~= before.push(leaf));
            assert forall|x: Seq<char>| #[trigger] text::texts(out@).contains(x) <==> now.contains(x) by {
                pipeline::lemma_push_contains(before, leaf, x);
            }
        }
        i = i + 1;
    }
    assert(all.take(i as int) =~= all);
    out
}

/// Paths that share their first segments with one after them share them with
/// every path between.
proof fn lemma_between(a: Seq<Seq<char>>, b: Seq<Seq<char>>, c: Seq<Seq<char>>, n: int)
    requires
        segments_before(a, b),
        segments_before(b, c),
        0 <= n <= a.len(),
        n <= c.len(),
        a.take(n) == c.take(n),
    ensures
        n <= shared_segments(c, b),
    decreases n,
{
    if n > 0 {
        assert(a[0] == a.take(n)[0] && c[0] == c.take(n)[0]);
        if a[0] != b[0] {
            order::lemma_lex_transitive(
                order::codes(a[0]),
                order::codes(b[0]),
                order::codes(c[0]),
            );
            order::lemma_lex_irreflexive(order::codes(a[0]));
        }
        assert(a.drop_first().take(n - 1) =~= a.take(n).drop_first());
        assert(c.drop_first().take(n - 1) =~= c.take(n).drop_first());
        lemma_between(a.drop_first(), b.drop_first(), c.drop_first(), n - 1);
    }
}

proof fn lemma_shared_prefix(a: Seq<Seq<char>>, c: Seq<Seq<char>>, n: int)
    requires
        0 <= n <= a.len(),
        n <= c.len(),
        a.take(n) == c.take(n),
    ensures
        n <= shared_segments(c, a),
    decreases n,
{
    if n > 0 {
        assert(a[0] == a.take(n)[0] && c[0] == c.take(n)[0]);
        assert(a.drop_first().take(n - 1) =~= a.take(n).drop_first());
        assert(c.drop_first().take(n - 1) =~= c.take(n).drop_first());
        lemma_shared_prefix(a.drop_first(), c.drop_first(), n - 1);
    }
}

/// No folder is drawn twice: a segment that gets a line at folder `j` completes a
/// path that no folder before it begins with.
pub proof fn no_folder_is_drawn_twice(folders: Seq<Seq<char>>, i: int, j: int, depth: int)
    requires
        in_drawing_order(folders),
        0 <= i < j < folders.len(),
        shared_segments(text::split(folders[j], '/'), text::split(folders[j - 1], '/')) <= depth
            < text::split(folders[j], '/').len(),
        depth < text::split(folders[i], '/').len(),
    ensures
        text::split(folders[i], '/').take(depth + 1) != text::split(folders[j], '/').take(depth + 1),
{
    let a = text::split(folders[i], '/');
    let b = text::split(folders[j - 1], '/');
    let c = text::split(folders[j], '/');
    if a.take(depth + 1) == c.take(depth + 1) {
        if i < j - 1 {
            assert(drawn_before(folders[i], folders[j - 1]));
            assert(drawn_before(folders[j - 1], folders[j]));
            lemma_between(a, b, c, depth + 1);
        } else {
            lemma_shared_prefix(a, c, depth + 1);
        }
    }
}

/// The documents in the first `n` of some folders, all together.
pub open spec fn counted(folders: Seq<Seq<char>>, n: int, v: Seq<AssignmentView>) -> nat
    decreases n,
{
    if n <= 0 {
        0
    } else {
        counted(folders, n - 1, v) + folder_count(v, folders[n - 1])
    }
}

/// One more document adds one where its folder is listed, and nothing elsewhere.
proof fn lemma_counted(folders: Seq<Seq<char>>, n: int, v: Seq<AssignmentView>, at: int)
    requires
        in_drawing_order(folders),
        v.len() > 0,
        0 <= at < folders.len(),
        folders[at] == v.last().leaf,
        n <= folders.len(),
    ensures
        counted(folders, n, v) == counted(folders, n, v.drop_last()) + (if at < n {
            1nat
        } else {
            0nat
        }),
    decreases n,
{
    if n > 0 {
        lemma_counted(folders, n - 1, v, at);
        if at != n - 1 && folders[n - 1] == v.last().leaf {
            lemma_segments_irreflexive(text::split(folders[at], '/'));
            assert(at < n - 1 ==> drawn_before(folders[at], folders[n - 1]));
            assert(at > n - 1 ==> drawn_before(folders[n - 1], folders[at]));
        }
    } else {
        assert(counted(folders, n, v) == 0);
    }
}

/// The counts of all folders together are all the documents.
pub proof fn counts_cover_every_document(folders: Seq<Seq<char>>, v: Seq<AssignmentView>)
    requires
        in_drawing_order(folders),
        forall|i: int| 0 <= i < v.len() ==> folders.contains((#[trigger] v[i]).leaf),
    ensures
        counted(folders, folders.len() as int, v) == v.len(),
    decreases v.len(),
{
    if v.len() == 0 {
        lemma_nothing_counted(folders, folders.len() as int, v);
    } else {
        let part = v.drop_last();
        assert forall|i: int| 0 <= i < part.len() implies folders.contains(
            (#[trigger] part[i]).leaf,
        ) by {
            assert(part[i] == v[i]);
        }
        counts_cover_every_document(folders, part);
        assert(folders.contains(v[v.len() - 1].leaf));
        let at = choose|at: int| 0 <= at < folders.len() && folders[at] == v.last().leaf;
        lemma_counted(folders, folders.len() as int, v, at);
    }
}

proof fn lemma_nothing_counted(folders: Seq<Seq<char>>, n: int, v: Seq<AssignmentView>)
    requires
        v.len() == 0,
    ensures
        counted(folders, n, v) == 0,
    decreases n,
{
    if n > 0 {
        lemma_nothing_counted(folders, n - 1, v);
    }
}

fn count_in(v: &Vec<Assignment>, leaf: &str) -> (r: usize)
    ensures
        r == folder_count(types::assignment_views(v@), leaf@),
        r <= v@.len(),
{
    let ghost all = types::assignment_views(v@);
    let mut n: usize = 0;
    let mut i: usize = 0;
    assert(all.take(0) =~= Seq::<AssignmentView>::empty());
    while i < v.len()
        invariant
            all == types::assignment_views(v@),
            i <= v@.len(),
            n <= i,
            n == folder_count(all.take(i as int), leaf@),
        decreases v@.len() - i,
    {
        assert(all.take(i + 1).drop_last() =~= all.take(i as int));
        assert(all.take(i + 1).last() == v@[i as int]@);
        if same(v[i].leaf.as_str(), leaf) {
            n = n + 1;
        }
        i = i + 1;
    }
    assert(all.take(i as int) =~= all);
    n
}

fn shared(a: &Vec<Vec<char>>, b: &Vec<Vec<char>>) -> (r: usize)
    ensures
        r == shared_segments(text::char_lists(a@), text::char_lists(b@)),
        r <= a@.len(),
{
    let ghost x = text::char_lists(a@);
    let ghost y = text::char_lists(b@);
    let mut n: usize = 0;
    assert(x.skip(0) =~= x && y.skip(0) =~= y);
    while n < a.len() && n < b.len() && same_chars(a[n].as_slice(), b[n].as_slice())
        invariant
            x == text::char_lists(a@),
            y == text::char_lists(b@),
            n <= a@.len(),
            n <= b@.len(),
            shared_segments(x, y) == n + shared_segments(x.skip(n as int), y.skip(n as int)),
        decreases a@.len() - n,
    {
        assert(x.skip(n as int)[0] == a@[n as int]@ && y.skip(n as int)[0] == b@[n as int]@);
        assert(x.skip(n as int).drop_first() =~= x.skip(n + 1));
        assert(y.skip(n as int).drop_first() =~= y.skip(n + 1));
        n = n + 1;
    }
    if n < a.len() && n < b.len() {
        assert(x.skip(n as int)[0] == a@[n as int]@ && y.skip(n as int)[0] == b@[n as int]@);
    }
    n
}

fn name_text(path: &str) -> (r: String)
    ensures
        r@ == name_or_nothing(path@),
{
    match name_of(path) {
        Some(name) => name,
        None => {
            let none = String::new();
            assert(none@ =~= seq![]);
            none
        },
    }
}

fn add_document(out: &mut String, a: &Assignment, depth: usize)
    ensures
        final(out)@ == old(out)@ + document_lines(a@, depth as nat),
{
    let ghost start = out@;
    let to = name_text(a.dest.as_str());
    let from = name_text(a.source.as_str());
    add_steps(out, depth);
    out.append(to.as_str());
    out.append("  [");
    out.append(print_confidence(a.confidence).as_str());
    out.append("]\n");
    if !same(from.as_str(), to.as_str()) {
        add_steps(out, depth);
        out.append("  was: ");
        out.append(from.as_str());
        out.append("\n");
    }
    assert(out@ =~= start + document_lines(a@, depth as nat));
}

fn add_documents(out: &mut String, v: &Vec<Assignment>, leaf: &str, depth: usize)
    ensures
        final(out)@ == old(out)@ + folder_documents(types::assignment_views(v@), leaf@, depth as nat),
{
    let ghost all = types::assignment_views(v@);
    let ghost start = out@;
    let mut i: usize = 0;
    assert(all.take(0) =~= Seq::<AssignmentView>::empty());
    assert(out@ =~= start + folder_documents(all.take(0), leaf@, depth as nat));
    while i < v.len()
        invariant
            all == types::assignment_views(v@),
            i <= v@.len(),
            out@ == start + folder_documents(all.take(i as int), leaf@, depth as nat),
        decreases v@.len() - i,
    {
        assert(all.take(i + 1).drop_last() =~= all.take(i as int));
        assert(all.take(i + 1).last() == v@[i as int]@);
        if same(v[i].leaf.as_str(), leaf) {
            add_document(out, &v[i], depth);
        }
        assert(out@ =~= start + folder_documents(all.take(i + 1), leaf@, depth as nat));
        i = i + 1;
    }
    assert(all.take(i as int) =~= all);
}

fn add_segments(out: &mut String, segments: &Vec<Vec<char>>, from: usize, docs: usize)
    requires
        from <= segments@.len(),
    ensures
        final(out)@ == old(out)@ + segment_lines(
            text::char_lists(segments@),
            from as int,
            segments@.len() as int,
            docs as nat,
        ),
{
    let ghost all = text::char_lists(segments@);
    let ghost start = out@;
    let mut depth: usize = from;
    assert(out@ =~= start + segment_lines(all, from as int, from as int, docs as nat));
    while depth < segments.len()
        invariant
            all == text::char_lists(segments@),
            from <= depth <= segments@.len(),
            out@ == start + segment_lines(all, from as int, depth as int, docs as nat),
        decreases segments@.len() - depth,
    {
        let ghost before = out@;
        assert(all[depth as int] == segments@[depth as int]@);
        add_steps(out, depth);
        out.append(text_of(segments[depth].as_slice()).as_str());
        if depth == segments.len() - 1 {
            out.append("/  (");
            out.append(decimal_usize(docs).as_str());
            out.append(")\n");
        } else {
            out.append("/\n");
        }
        assert(out@ =~= before + segment_line(all, depth as int, docs as nat));
        assert(out@ =~= start + segment_lines(all, from as int, depth + 1, docs as nat));
        depth = depth + 1;
    }
}

/// Draw the proposed library as a tree, with per-folder counts.
pub fn tree(plan: &Plan, full: bool) -> (r: String)
    ensures
        exists|folders: Seq<Seq<char>>| #[trigger]
            are_folders(folders, types::assignment_views(plan.assignments@)) && r@ == folder_lines(
                folders,
                folders.len() as int,
                types::assignment_views(plan.assignments@),
                full,
            ),
{
    let ghost all = types::assignment_views(plan.assignments@);
    let folders = folders_used(&plan.assignments);
    let ghost names = text::texts(folders@);
    let mut out = String::new();
    let mut previous: Vec<Vec<char>> = Vec::new();
    let mut i: usize = 0;
    assert(out@ =~= folder_lines(names, 0, all, full));
    assert(text::char_lists(previous@) =~= seq![]);
    while i < folders.len()
        invariant
            all == types::assignment_views(plan.assignments@),
            names == text::texts(folders@),
            i <= folders@.len(),
            text::char_lists(previous@) == (if i > 0 {
                text::split(names[i - 1], '/')
            } else {
                seq![]
            }),
            out@ == folder_lines(names, i as int, all, full),
        decreases folders@.len() - i,
    {
        let folder = folders[i].as_str();
        assert(names[i as int] == folder@);
        let segments = split_chars(chars_of(folder).as_slice(), '/');
        let from: usize = shared(&segments, &previous);
        let docs: usize = count_in(&plan.assignments, folder);
        add_segments(&mut out, &segments, from, docs);
        if full {
            add_documents(&mut out, &plan.assignments, folder, segments.len());
        }
        assert(text::char_lists(segments@).len() == segments@.len());
        previous = segments;
        i = i + 1;
    }
    out
}

/// How a mode is called.
pub open spec fn mode_name(mode: LinkMode) -> Seq<char> {
    match mode {
        LinkMode::Hardlink => "Hardlink"@,
        LinkMode::Symlink => "Symlink"@,
        LinkMode::Copy => "Copy"@,
        LinkMode::Move => "Move"@,
    }
}

fn mode_text(mode: LinkMode) -> (r: &'static str)
    ensures
        r@ == mode_name(mode),
{
    match mode {
        LinkMode::Hardlink => "Hardlink",
        LinkMode::Symlink => "Symlink",
        LinkMode::Copy => "Copy",
        LinkMode::Move => "Move",
    }
}

/// How many documents get another name.
pub open spec fn renamed(v: Seq<AssignmentView>) -> nat
    decreases v.len(),
{
    if v.len() == 0 {
        0
    } else {
        renamed(v.drop_last()) + (if paths::file_name(v.last().dest) != paths::file_name(
            v.last().source,
        ) {
            1nat
        } else {
            0nat
        })
    }
}

/// How many files are copies of one that is filed.
pub open spec fn copies_listed(v: Seq<DuplicateView>) -> nat
    decreases v.len(),
{
    if v.len() == 0 {
        0
    } else {
        copies_listed(v.drop_last()) + v.last().others.len()
    }
}

fn count_renamed(v: &Vec<Assignment>) -> (r: usize)
    ensures
        r == renamed(types::assignment_views(v@)),
{
    let ghost all = types::assignment_views(v@);
    let mut n: usize = 0;
    let mut i: usize = 0;
    assert(all.take(0) =~= Seq::<AssignmentView>::empty());
    while i < v.len()
        invariant
            all == types::assignment_views(v@),
            i <= v@.len(),
            n <= i,
            n == renamed(all.take(i as int)),
        decreases v@.len() - i,
    {
        assert(all.take(i + 1).drop_last() =~= all.take(i as int));
        assert(all.take(i + 1).last() == v@[i as int]@);
        let same_name = match (name_of(v[i].dest.as_str()), name_of(v[i].source.as_str())) {
            (Some(a), Some(b)) => same(a.as_str(), b.as_str()),
            (None, None) => true,
            _ => false,
        };
        if !same_name {
            n = n + 1;
        }
        i = i + 1;
    }
    assert(all.take(i as int) =~= all);
    n
}

fn count_copies(v: &Vec<Duplicate>) -> (r: u128)
    ensures
        r == copies_listed(types::duplicate_views(v@)),
{
    let ghost all = types::duplicate_views(v@);
    let total: usize = v.len();
    let mut n: u128 = 0;
    let mut i: usize = 0;
    assert(all.take(0) =~= Seq::<DuplicateView>::empty());
    while i < total
        invariant
            total == v@.len(),
            all == types::duplicate_views(v@),
            i <= total,
            n <= i * 0xffff_ffff_ffff_ffff,
            n == copies_listed(all.take(i as int)),
        decreases total - i,
    {
        assert(all.take(i + 1).drop_last() =~= all.take(i as int));
        assert(all.take(i + 1).last() == v@[i as int]@);
        let others: usize = v[i].others.len();
        assert(v@[i as int]@.others.len() == others);
        n = n + others as u128;
        i = i + 1;
    }
    assert(all.take(i as int) =~= all);
    n
}

/// The one-screen summary of a plan.
pub open spec fn summed_up(
    source: Seq<char>,
    library: Seq<char>,
    mode: LinkMode,
    leaves: nat,
    v: Seq<AssignmentView>,
    duplicates: Seq<DuplicateView>,
    unfiled: nat,
) -> Seq<char> {
    let unsorted = folder_count(v, UNSORTED@);
    "  source     "@ + source + "\n"@ + "  library    "@ + library + "\n"@ + "  mode       "@
        + mode_name(mode) + "\n"@ + "  folders    "@ + number::digits(leaves) + "\n"@ + "  filed      "@
        + number::digits((v.len() - unsorted) as nat) + "\n"@ + "  unsorted   "@ + number::digits(unsorted)
        + "\n"@ + "  renamed    "@ + number::digits(renamed(v)) + "\n"@ + "  duplicates "@ + number::digits(
        copies_listed(duplicates),
    ) + " (not filed)\n"@ + "  unreadable "@ + number::digits(unfiled) + "\n"@
}

/// The one-screen summary printed after planning.
pub fn summary(plan: &Plan) -> (r: String)
    ensures
        r@ == summed_up(
            plan.source_root@,
            plan.library_root@,
            plan.mode,
            plan.taxonomy.leaves@.len(),
            types::assignment_views(plan.assignments@),
            types::duplicate_views(plan.duplicates@),
            plan.unfiled@.len(),
        ),
{
    let unsorted: usize = count_in(&plan.assignments, UNSORTED);
    let total: usize = plan.assignments.len();
    assert(types::assignment_views(plan.assignments@).len() == total);
    let mut out = own("  source     ");
    out.append(plan.source_root.as_str());
    out.append("\n");
    out.append("  library    ");
    out.append(plan.library_root.as_str());
    out.append("\n");
    out.append("  mode       ");
    out.append(mode_text(plan.mode));
    out.append("\n");
    out.append("  folders    ");
    out.append(decimal_usize(plan.taxonomy.leaves.len()).as_str());
    out.append("\n");
    out.append("  filed      ");
    out.append(decimal_usize(total - unsorted).as_str());
    out.append("\n");
    out.append("  unsorted   ");
    out.append(decimal_usize(unsorted).as_str());
    out.append("\n");
    out.append("  renamed    ");
    out.append(decimal_usize(count_renamed(&plan.assignments)).as_str());
    out.append("\n");
    out.append("  duplicates ");
    out.append(decimal_wide(count_copies(&plan.duplicates)).as_str());
    out.append(" (not filed)\n");
    out.append("  unreadable ");
    out.append(decimal_usize(plan.unfiled.len()).as_str());
    out.append("\n");
    out
}

/// The documents of a plan that are filed into a folder, by their positions.
pub open spec fn filed_in(v: Seq<AssignmentView>, leaf: Seq<char>) -> Set<int> {
    Set::new(|i: int| 0 <= i < v.len() && v[i].leaf == leaf)
}

/// The documents of a plan that get another name, by their positions.
pub open spec fn given_other_names(v: Seq<AssignmentView>) -> Set<int> {
    Set::new(
        |i: int|
            0 <= i < v.len() && paths::file_name(v[i].dest) != paths::file_name(v[i].source),
    )
}

proof fn lemma_filed_in(v: Seq<AssignmentView>, leaf: Seq<char>)
    ensures
        filed_in(v, leaf).finite(),
        filed_in(v, leaf).len() == folder_count(v, leaf),
    decreases v.len(),
{
    if v.len() == 0 {
        assert(filed_in(v, leaf) =~= Set::empty());
    } else {
        let front = v.drop_last();
        lemma_filed_in(front, leaf);
        if v.last().leaf == leaf {
            assert(filed_in(v, leaf) =~= filed_in(front, leaf).insert(v.len() - 1));
        } else {
            assert(filed_in(v, leaf) =~= filed_in(front, leaf));
        }
    }
}

proof fn lemma_renamed(v: Seq<AssignmentView>)
    ensures
        given_other_names(v).finite(),
        given_other_names(v).len() == renamed(v),
    decreases v.len(),
{
    if v.len() == 0 {
        assert(given_other_names(v) =~= Set::empty());
    } else {
        let front = v.drop_last();
        lemma_renamed(front);
        if paths::file_name(v.last().dest) != paths::file_name(v.last().source) {
            assert(given_other_names(v) =~= given_other_names(front).insert(v.len() - 1));
        } else {
            assert(given_other_names(v) =~= given_other_names(front));
        }
    }
}

proof fn lemma_copies_counted(v: Seq<DuplicateView>)
    ensures
        copies_listed(v) == scan::all_others(v).len(),
    decreases v.len(),
{
    if v.len() > 0 {
        lemma_copies_counted(v.drop_last());
    }
}

/// The summary of a plan tells how many documents are filed, how many are left
/// unsorted, how many get another name, how many copies are not filed, and how many
/// files could not be read.
pub proof fn the_summary_counts(
    source: Seq<char>,
    library: Seq<char>,
    mode: LinkMode,
    leaves: nat,
    v: Seq<AssignmentView>,
    duplicates: Seq<DuplicateView>,
    unfiled: nat,
)
    ensures
        summed_up(source, library, mode, leaves, v, duplicates, unfiled) == "  source     "@
            + source + "\n"@ + "  library    "@ + library + "\n"@ + "  mode       "@ + mode_name(
            mode,
        ) + "\n"@ + "  folders    "@ + number::digits(leaves) + "\n"@ + "  filed      "@
            + number::digits((v.len() - filed_in(v, "_Unsorted"@).len()) as nat) + "\n"@
            + "  unsorted   "@ + number::digits(filed_in(v, "_Unsorted"@).len()) + "\n"@
            + "  renamed    "@ + number::digits(given_other_names(v).len()) + "\n"@
            + "  duplicates "@ + number::digits(scan::all_others(duplicates).len())
            + " (not filed)\n"@ + "  unreadable "@ + number::digits(unfiled) + "\n"@,
{
    lemma_filed_in(v, UNSORTED@);
    lemma_renamed(v);
    lemma_copies_counted(duplicates);
}

proof fn lemma_document_drawn(v: Seq<AssignmentView>, leaf: Seq<char>, depth: nat, i: int)
    requires
        0 <= i < v.len(),
        v[i].leaf == leaf,
    ensures
        text::contains_text(folder_documents(v, leaf, depth), name_or_nothing(v[i].dest)),
    decreases v.len(),
{
    let front = v.drop_last();
    let last = v.last();
    let x = name_or_nothing(v[i].dest);
    let before = folder_documents(front, leaf, depth);
    if i < front.len() {
        lemma_document_drawn(front, leaf, depth, i);
        text::lemma_told(before, document_lines(last, depth), x);
    } else {
        let a = stepped(depth);
        let b = a + x;
        let c = b + "  ["@;
        let d = c + float::two_decimals(last.confidence);
        let e = d + "]\n"@;
        text::lemma_told(a, x, x);
        text::lemma_told(b, "  ["@, x);
        text::lemma_told(c, float::two_decimals(last.confidence), x);
        text::lemma_told(d, "]\n"@, x);
        let from = name_or_nothing(last.source);
        text::lemma_told(e, stepped(depth), x);
        text::lemma_told(e + stepped(depth), "  was: "@, x);
        text::lemma_told(e + stepped(depth) + "  was: "@, from, x);
        text::lemma_told(e + stepped(depth) + "  was: "@ + from, "\n"@, x);
        text::lemma_told(before, document_lines(last, depth), x);
    }
}

/// The full drawing of a plan shows the new name of every document.
pub proof fn every_document_is_drawn(
    folders: Seq<Seq<char>>,
    n: int,
    v: Seq<AssignmentView>,
    i: int,
)
    requires
        0 <= n <= folders.len(),
        0 <= i < v.len(),
        folders.take(n).contains(v[i].leaf),
    ensures
        text::contains_text(folder_lines(folders, n, v, true), name_or_nothing(v[i].dest)),
    decreases n,
{
    let x = name_or_nothing(v[i].dest);
    let k = choose|k: int| 0 <= k < folders.take(n).len() && folders.take(n)[k] == v[i].leaf;
    let segments = text::split(folders[n - 1], '/');
    let previous = if n > 1 {
        text::split(folders[n - 2], '/')
    } else {
        seq![]
    };
    let front = folder_lines(folders, n - 1, v, true);
    let lines = segment_lines(
        segments,
        shared_segments(segments, previous) as int,
        segments.len() as int,
        folder_count(v, folders[n - 1]),
    );
    let docs = folder_documents(v, folders[n - 1], segments.len());
    if k < n - 1 {
        assert(folders.take(n - 1)[k] == v[i].leaf);
        every_document_is_drawn(folders, n - 1, v, i);
        text::lemma_told(front, lines, x);
    } else {
        lemma_document_drawn(v, folders[n - 1], segments.len(), i);
    }
    text::lemma_told(front + lines, docs, x);
}

} // verus!
