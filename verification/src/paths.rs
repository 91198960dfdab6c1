//! Slash-separated paths as text.
//!
//! A path is a string of components. Repeated and trailing slashes carry no
//! component, and neither does a `.` other than a leading one, so `a//b/.`
//! and `a/b` are the same path.

use crate::order;
use crate::text;
use crate::text::{Class, chars_of, copy_range, text_of};
use vstd::prelude::*;
use vstd::slice::slice_subrange;

verus! {

/// What follows the last slash.
pub open spec fn last_segment(p: Seq<char>) -> Seq<char> {
    p.skip(p.len() - text::trailing(p, Class::IsNot('/')))
}

pub open spec fn has_slash(p: Seq<char>) -> bool {
    text::trailing(p, Class::IsNot('/')) < p.len()
}

/// The position of the last slash.
pub open spec fn last_slash(p: Seq<char>) -> int {
    p.len() - text::trailing(p, Class::IsNot('/')) - 1
}

/// The path without the trailing slashes and dots that name no component.
pub open spec fn bare(p: Seq<char>) -> Seq<char>
    decreases p.len(),
{
    if p.len() == 0 || !has_slash(p) {
        p
    } else {
        let seg = last_segment(p);
        let k = last_slash(p);
        if seg.len() == 0 || seg == seq!['.'] {
            if k <= 0 || k >= p.len() {
                p.take(1)
            } else {
                bare(p.take(k))
            }
        } else {
            p
        }
    }
}

pub open spec fn is_root(p: Seq<char>) -> bool {
    bare(p) == seq!['/']
}

/// The path of the directory that holds the last component, if there is one.
pub open spec fn parent(p: Seq<char>) -> Option<Seq<char>> {
    let b = bare(p);
    if b.len() == 0 || b == seq!['/'] {
        None
    } else if !has_slash(b) {
        Some(seq![])
    } else if last_slash(b) == 0 {
        Some(seq!['/'])
    } else {
        Some(bare(b.take(last_slash(b))))
    }
}

/// The last component, if it is an ordinary name.
pub open spec fn file_name(p: Seq<char>) -> Option<Seq<char>> {
    let b = bare(p);
    let seg = last_segment(b);
    if b.len() == 0 || b == seq!['/'] || seg == seq!['.', '.'] || seg == seq!['.'] {
        None
    } else {
        Some(seg)
    }
}

/// Where the last full stop of a name stands, unless the name has none or
/// begins with its only one.
pub open spec fn dot_position(name: Seq<char>) -> Option<int> {
    let d = name.len() - text::trailing(name, Class::IsNot('.')) - 1;
    if d > 0 {
        Some(d)
    } else {
        None
    }
}

/// A file name without its extension.
pub open spec fn stem_of_name(name: Seq<char>) -> Seq<char> {
    match dot_position(name) {
        Some(d) => name.take(d),
        None => name,
    }
}

/// The extension of a file name.
pub open spec fn extension_of_name(name: Seq<char>) -> Option<Seq<char>> {
    match dot_position(name) {
        Some(d) => Some(name.skip(d + 1)),
        None => None,
    }
}

pub open spec fn file_stem(p: Seq<char>) -> Option<Seq<char>> {
    match file_name(p) {
        Some(name) => Some(stem_of_name(name)),
        None => None,
    }
}

pub open spec fn extension(p: Seq<char>) -> Option<Seq<char>> {
    match file_name(p) {
        Some(name) => extension_of_name(name),
        None => None,
    }
}

pub open spec fn is_absolute(p: Seq<char>) -> bool {
    p.len() > 0 && p[0] == '/'
}

/// A path below a directory; an absolute path stands for itself.
pub open spec fn join(dir: Seq<char>, p: Seq<char>) -> Seq<char> {
    if is_absolute(p) {
        p
    } else if dir.len() == 0 || dir.last() == '/' {
        dir + p
    } else {
        dir.push('/') + p
    }
}

/// The sort key of one component: its kind, then its characters, then an end
/// marker below every character.
pub open spec fn segment_key(seg: Seq<char>) -> Seq<i128> {
    if seg == seq!['.'] {
        seq![2i128, 0i128]
    } else if seg == seq!['.', '.'] {
        seq![3i128, 0i128]
    } else {
        seq![4i128] + Seq::new(seg.len(), |i: int| (seg[i] as i128 + 1) as i128) + seq![0i128]
    }
}

proof fn lemma_bare_shrinks(p: Seq<char>)
    ensures
        bare(p).len() <= p.len(),
        bare(p) == p.take(bare(p).len() as int),
    decreases p.len(),
{
    if p.len() > 0 && has_slash(p) {
        text::lemma_trailing_facts(p, Class::IsNot('/'));
        let seg = last_segment(p);
        let k = last_slash(p);
        if (seg.len() == 0 || seg == seq!['.']) && 0 < k {
            lemma_bare_shrinks(p.take(k));
            assert(bare(p.take(k)) =~= p.take(bare(p.take(k)).len() as int));
        } else {
            assert(p.take(p.len() as int) =~= p);
        }
    } else {
        assert(p.take(p.len() as int) =~= p);
    }
}

/// The directory of a component is shorter than the path to it.
pub proof fn lemma_parent_shrinks(p: Seq<char>)
    ensures
        parent(p) matches Some(q) ==> q.len() < bare(p).len() && bare(p).len() <= p.len(),
{
    lemma_bare_shrinks(p);
    let b = bare(p);
    if b.len() > 0 && b != seq!['/'] && has_slash(b) {
        text::lemma_trailing_facts(b, Class::IsNot('/'));
        if last_slash(b) == 0 {
            if b.len() == 1 {
                assert(b[0] == '/');
                assert(b =~= seq!['/']);
            }
        } else {
            lemma_bare_shrinks(b.take(last_slash(b)));
        }
    }
}

/// The key by which paths sort: component by component. Equal keys mean the
/// same path.
pub open spec fn path_key(p: Seq<char>) -> Seq<i128>
    decreases p.len(),
    via path_key_decreases
{
    match parent(p) {
        Some(q) => path_key(q) + segment_key(last_segment(bare(p))),
        None => if is_root(p) {
            seq![1i128, 0i128]
        } else {
            seq![]
        },
    }
}

#[via_fn]
proof fn path_key_decreases(p: Seq<char>) {
    lemma_parent_shrinks(p);
}

/// How many components a path has, the root included.
pub open spec fn depth(p: Seq<char>) -> nat
    decreases p.len(),
    via depth_decreases
{
    match parent(p) {
        Some(q) => depth(q) + 1,
        None => if is_root(p) {
            1
        } else {
            0
        },
    }
}

#[via_fn]
proof fn depth_decreases(p: Seq<char>) {
    lemma_parent_shrinks(p);
}

/// Whether two texts name the same path.
pub open spec fn same_path(a: Seq<char>, b: Seq<char>) -> bool {
    path_key(a) == path_key(b)
}

/// The order in which paths sort.
pub open spec fn path_before(a: Seq<char>, b: Seq<char>) -> bool {
    order::lex_before(path_key(a), path_key(b))
}

// ---------------------------------------------------------------------------
// Computing them
// ---------------------------------------------------------------------------

/// The length of what follows the last occurrence of a character.
fn tail_without(s: &[char], c: char) -> (r: usize)
    ensures
        r == text::trailing(s@, Class::IsNot(c)),
        r <= s@.len(),
        forall|i: int| s@.len() - r <= i < s@.len() ==> s@[i] != c,
        r < s@.len() ==> s@[s@.len() - r - 1] == c,
{
    let mut n: usize = 0;
    let total: usize = s.len();
    while n < total && s[total - n - 1] != c
        invariant
            total == s@.len(),
            n <= total,
            forall|i: int| s@.len() - n <= i < s@.len() ==> #[trigger] s@[i] != c,
        decreases total - n,
    {
        n = n + 1;
    }
    proof {
        text::lemma_trailing(s@, Class::IsNot(c), n as nat);
    }
    n
}

fn only_dot(s: &[char]) -> (r: bool)
    ensures
        r == (s@ == seq!['.']),
{
    if s.len() == 1 && s[0] == '.' {
        assert(s@ =~= seq!['.']);
        true
    } else {
        assert(s@ != seq!['.']) by {
            if s@ == seq!['.'] {
                assert(s@.len() == 1 && s@[0] == '.');
            }
        }
        false
    }
}

fn two_dots(s: &[char]) -> (r: bool)
    ensures
        r == (s@ == seq!['.', '.']),
{
    if s.len() == 2 && s[0] == '.' && s[1] == '.' {
        assert(s@ =~= seq!['.', '.']);
        true
    } else {
        assert(s@ != seq!['.', '.']) by {
            if s@ == seq!['.', '.'] {
                assert(s@.len() == 2 && s@[0] == '.' && s@[1] == '.');
            }
        }
        false
    }
}

fn only_slash(s: &[char]) -> (r: bool)
    ensures
        r == (s@ == seq!['/']),
{
    if s.len() == 1 && s[0] == '/' {
        assert(s@ =~= seq!['/']);
        true
    } else {
        assert(s@ != seq!['/']) by {
            if s@ == seq!['/'] {
                assert(s@.len() == 1 && s@[0] == '/');
            }
        }
        false
    }
}

fn bare_chars(p: &[char]) -> (r: &[char])
    ensures
        r@ == bare(p@),
        r@.len() <= p@.len(),
    decreases p@.len(),
{
    if p.len() == 0 {
        return p;
    }
    let n: usize = tail_without(p, '/');
    if n == p.len() {
        return p;
    }
    let k: usize = p.len() - n - 1;
    let seg = slice_subrange(p, k + 1, p.len());
    assert(seg@ =~= last_segment(p@));
    if seg.len() == 0 || only_dot(seg) {
        if k == 0 {
            let one = slice_subrange(p, 0, 1);
            assert(one@ =~= p@.take(1));
            one
        } else {
            let rest = slice_subrange(p, 0, k);
            assert(rest@ =~= p@.take(k as int));
            bare_chars(rest)
        }
    } else {
        p
    }
}

fn parent_chars(p: &[char]) -> (r: Option<Vec<char>>)
    ensures
        match r {
            Some(q) => parent(p@) == Some(q@),
            None => parent(p@) is None,
        },
{
    let b = bare_chars(p);
    if b.len() == 0 || only_slash(b) {
        return None;
    }
    let n: usize = tail_without(b, '/');
    if n == b.len() {
        let none: Vec<char> = Vec::new();
        assert(none@ =~= seq![]);
        return Some(none);
    }
    let k: usize = b.len() - n - 1;
    if k == 0 {
        let root: Vec<char> = vec!['/'];
        assert(root@ =~= seq!['/']);
        Some(root)
    } else {
        let rest = slice_subrange(b, 0, k);
        assert(rest@ =~= b@.take(k as int));
        let q = bare_chars(rest);
        let out = copy_range(q, 0, q.len());
        assert(out@ =~= q@);
        Some(out)
    }
}

fn last_chars(b: &[char]) -> (r: Vec<char>)
    ensures
        r@ == last_segment(b@),
{
    let n: usize = tail_without(b, '/');
    let out = copy_range(b, b.len() - n, b.len());
    assert(out@ =~= last_segment(b@));
    out
}

fn file_name_chars(p: &[char]) -> (r: Option<Vec<char>>)
    ensures
        match r {
            Some(q) => file_name(p@) == Some(q@),
            None => file_name(p@) is None,
        },
{
    let b = bare_chars(p);
    let seg = last_chars(b);
    if b.len() == 0 || only_slash(b) || two_dots(seg.as_slice()) || only_dot(seg.as_slice()) {
        None
    } else {
        Some(seg)
    }
}

/// The last component of a path, if it is an ordinary name.
pub fn name_of(p: &str) -> (r: Option<String>)
    ensures
        crate::text::opt_text(r) == file_name(p@),
{
    match file_name_chars(chars_of(p).as_slice()) {
        Some(q) => Some(text_of(q.as_slice())),
        None => None,
    }
}

fn dot_in(name: &[char]) -> (r: Option<usize>)
    ensures
        match r {
            Some(d) => dot_position(name@) == Some(d as int) && 0 < d < name@.len(),
            None => dot_position(name@) is None,
        },
{
    let n: usize = tail_without(name, '.');
    if n < name.len() && name.len() - n - 1 > 0 {
        Some(name.len() - n - 1)
    } else {
        None
    }
}

/// The name of a path's last component without its extension.
pub fn stem_of(p: &str) -> (r: Option<String>)
    ensures
        crate::text::opt_text(r) == file_stem(p@),
{
    match file_name_chars(chars_of(p).as_slice()) {
        Some(name) => match dot_in(name.as_slice()) {
            Some(d) => {
                let s = copy_range(name.as_slice(), 0, d);
                assert(s@ =~= name@.take(d as int));
                Some(text_of(s.as_slice()))
            },
            None => Some(text_of(name.as_slice())),
        },
        None => None,
    }
}

/// The extension of a path's last component.
pub fn extension_of(p: &str) -> (r: Option<String>)
    ensures
        crate::text::opt_text(r) == extension(p@),
{
    match file_name_chars(chars_of(p).as_slice()) {
        Some(name) => match dot_in(name.as_slice()) {
            Some(d) => {
                let total: usize = name.len();
                let s = copy_range(name.as_slice(), d + 1, total);
                assert(s@ =~= name@.skip(d as int + 1));
                Some(text_of(s.as_slice()))
            },
            None => None,
        },
        None => None,
    }
}

/// The path of the directory that holds the last component.
pub fn parent_of(p: &str) -> (r: Option<String>)
    ensures
        crate::text::opt_text(r) == parent(p@),
{
    match parent_chars(chars_of(p).as_slice()) {
        Some(q) => Some(text_of(q.as_slice())),
        None => None,
    }
}

/// A path below a directory.
pub fn join_paths(dir: &str, p: &str) -> (r: String)
    ensures
        r@ == join(dir@, p@),
{
    let d = chars_of(dir);
    let q = chars_of(p);
    if q.len() > 0 && q[0] == '/' {
        return text_of(q.as_slice());
    }
    let mut out = d;
    if out.len() > 0 && out[out.len() - 1] != '/' {
        out.push('/');
    }
    crate::text::append_chars(&mut out, q.as_slice());
    text_of(out.as_slice())
}

fn shifted(c: char) -> (r: i128)
    ensures
        r == (c as i128 + 1) as i128,
{
    let u: i128 = c as u32 as i128;
    u + 1
}

fn segment_key_of(seg: &[char]) -> (r: Vec<i128>)
    ensures
        r@ == segment_key(seg@),
{
    if only_dot(seg) {
        let v: Vec<i128> = vec![2i128, 0i128];
        assert(v@ =~= seq![2i128, 0i128]);
        return v;
    }
    if two_dots(seg) {
        let v: Vec<i128> = vec![3i128, 0i128];
        assert(v@ =~= seq![3i128, 0i128]);
        return v;
    }
    let ghost body = Seq::new(seg@.len(), |i: int| (seg@[i] as i128 + 1) as i128);
    let mut v: Vec<i128> = vec![4i128];
    let mut i: usize = 0;
    assert(v@ =~= seq![4i128] + body.take(0));
    while i < seg.len()
        invariant
            i <= seg@.len(),
            body == Seq::new(seg@.len(), |i: int| (seg@[i] as i128 + 1) as i128),
            v@ == seq![4i128] + body.take(i as int),
        decreases seg@.len() - i,
    {
        v.push(shifted(seg[i]));
        assert(body.take(i + 1) =~= body.take(i as int).push(body[i as int]));
        assert(v@ =~= seq![4i128] + body.take(i + 1));
        i = i + 1;
    }
    assert(body.take(i as int) =~= body);
    v.push(0i128);
    assert(v@ =~= seq![4i128] + body + seq![0i128]);
    v
}

fn append_codes(out: &mut Vec<i128>, more: &[i128])
    ensures
        final(out)@ == old(out)@ + more@,
{
    let ghost start = out@;
    let mut i: usize = 0;
    while i < more.len()
        invariant
            i <= more@.len(),
            out@ == start + more@.take(i as int),
        decreases more@.len() - i,
    {
        out.push(more[i]);
        i = i + 1;
    }
    assert(more@.take(more@.len() as int) =~= more@);
}

fn path_key_chars(p: &[char]) -> (r: Vec<i128>)
    ensures
        r@ == path_key(p@),
    decreases p@.len(),
{
    proof {
        lemma_parent_shrinks(p@);
    }
    match parent_chars(p) {
        Some(q) => {
            let mut out = path_key_chars(q.as_slice());
            let seg = last_chars(bare_chars(p));
            append_codes(&mut out, segment_key_of(seg.as_slice()).as_slice());
            out
        },
        None => {
            if only_slash(bare_chars(p)) {
                let v: Vec<i128> = vec![1i128, 0i128];
                assert(v@ =~= seq![1i128, 0i128]);
                v
            } else {
                let v: Vec<i128> = Vec::new();
                assert(v@ =~= seq![]);
                v
            }
        },
    }
}

pub(crate) fn path_key_of(p: &str) -> (r: Vec<i128>)
    ensures
        r@ == path_key(p@),
{
    path_key_chars(chars_of(p).as_slice())
}

fn depth_chars(p: &[char]) -> (r: usize)
    ensures
        r == depth(p@),
        r <= p@.len(),
    decreases p@.len(),
{
    proof {
        lemma_parent_shrinks(p@);
        lemma_bare_shrinks(p@);
    }
    match parent_chars(p) {
        Some(q) => {
            let n: usize = depth_chars(q.as_slice());
            let total: usize = p.len();
            assert(n < total);
            n + 1
        },
        None => {
            let b = bare_chars(p);
            if only_slash(b) {
                1
            } else {
                0
            }
        },
    }
}

/// How many components a path has, the root included.
pub fn depth_of(p: &str) -> (r: usize)
    ensures
        r == depth(p@),
{
    depth_chars(chars_of(p).as_slice())
}

/// Whether two texts name the same path.
pub fn paths_equal(a: &str, b: &str) -> (r: bool)
    ensures
        r == same_path(a@, b@),
{
    let x = path_key_of(a);
    let y = path_key_of(b);
    if x.len() != y.len() {
        return false;
    }
    let mut i: usize = 0;
    while i < x.len()
        invariant
            i <= x@.len() == y@.len(),
            x@ == path_key(a@),
            y@ == path_key(b@),
            forall|j: int| 0 <= j < i ==> x@[j] == y@[j],
        decreases x@.len() - i,
    {
        if x[i] != y[i] {
            return false;
        }
        i = i + 1;
    }
    assert(x@ =~= y@);
    true
}

// ---------------------------------------------------------------------------
// Laws
// ---------------------------------------------------------------------------

/// Without the slashes and dots that name no component there is nothing more to drop.
proof fn lemma_bare_twice(p: Seq<char>)
    ensures
        bare(bare(p)) == bare(p),
    decreases p.len(),
{
    if p.len() > 0 && has_slash(p) {
        text::lemma_trailing_facts(p, Class::IsNot('/'));
        let seg = last_segment(p);
        let k = last_slash(p);
        if seg.len() == 0 || seg == seq!['.'] {
            if k <= 0 || k >= p.len() {
                let root = p.take(1);
                assert(root[0] == '/');
                text::lemma_trailing(root, Class::IsNot('/'), 0);
                assert(root.take(1) =~= root);
            } else {
                lemma_bare_twice(p.take(k));
            }
        }
    }
}

/// A name that is put below a directory is the last component of the path, and the
/// directory is what holds it: one component less, however many slashes the directory
/// was written with.
pub proof fn a_joined_name_leads_back(dir: Seq<char>, name: Seq<char>)
    requires
        name.len() > 0,
        forall|i: int| 0 <= i < name.len() ==> #[trigger] name[i] != '/',
        name != seq!['.'],
        name != seq!['.', '.'],
    ensures
        file_name(join(dir, name)) == Some(name),
        parent(join(dir, name)) matches Some(above) && same_path(above, dir),
        depth(join(dir, name)) == depth(dir) + 1,
        dir.len() > 0 && dir.last() != '/' ==> join(dir, name) == dir + seq!['/'] + name,
{
    let p = join(dir, name);
    let n = name.len();
    assert forall|i: int| p.len() - n <= i < p.len() implies text::in_class(
        Class::IsNot('/'),
        #[trigger] p[i],
    ) by {
        assert(p[i] == name[i - (p.len() - n)]);
    }
    text::lemma_trailing(p, Class::IsNot('/'), n);
    assert(last_segment(p) =~= name);
    assert(bare(p) == p);
    lemma_bare_twice(dir);
    if dir.len() == 0 {
        assert(p =~= name);
        assert(bare(dir) == dir);
        assert(parent(p) == Some(Seq::<char>::empty()));
    } else if dir.last() == '/' {
        let k = dir.len() - 1;
        assert(last_slash(p) == k);
        text::lemma_trailing(dir, Class::IsNot('/'), 0);
        assert(last_segment(dir) =~= Seq::<char>::empty());
        if k == 0 {
            assert(dir =~= seq!['/']);
            assert(dir.take(1) =~= dir);
        } else {
            assert(p.take(k) =~= dir.take(k));
            lemma_bare_twice(dir.take(k));
        }
    } else {
        assert(p =~= dir + seq!['/'] + name);
        assert(last_slash(p) == dir.len());
        assert(p.take(dir.len() as int) =~= dir);
    }
    if dir.len() > 0 {
        assert(p[0] == dir[0]);
        assert(p.len() > 1);
    }
    assert(parent(p) == Some(bare(dir)));
    assert(path_key(bare(dir)) == path_key(dir));
    assert(depth(bare(dir)) == depth(dir));
}

/// A path from the root stands for itself, whatever it is put below.
pub proof fn paths_from_the_root_stay(dir: Seq<char>, rest: Seq<char>)
    ensures
        join(dir, seq!['/'] + rest) == seq!['/'] + rest,
{
    assert((seq!['/'] + rest)[0] == '/');
}

/// The extension of a name is what follows its last full stop, and the stem is all that
/// stands before it.
pub proof fn names_part_at_their_last_dot(stem: Seq<char>, ext: Seq<char>)
    requires
        stem.len() > 0,
        forall|i: int| 0 <= i < ext.len() ==> #[trigger] ext[i] != '.',
    ensures
        stem_of_name(stem + seq!['.'] + ext) == stem,
        extension_of_name(stem + seq!['.'] + ext) == Some(ext),
{
    let name = stem + seq!['.'] + ext;
    assert forall|i: int| name.len() - ext.len() <= i < name.len() implies text::in_class(
        Class::IsNot('.'),
        #[trigger] name[i],
    ) by {
        assert(name[i] == ext[i - (name.len() - ext.len())]);
    }
    assert(name[stem.len() as int] == '.');
    text::lemma_trailing(name, Class::IsNot('.'), ext.len());
    assert(name.take(stem.len() as int) =~= stem);
    assert(name.skip((stem.len() + 1) as int) =~= ext);
}

/// A name whose only full stop is its first character, or that has none, is all stem.
pub proof fn names_without_an_extension_are_stems(name: Seq<char>)
    requires
        forall|i: int| 0 < i < name.len() ==> #[trigger] name[i] != '.',
    ensures
        stem_of_name(name) == name,
        extension_of_name(name) is None,
{
    text::lemma_trailing_facts(name, Class::IsNot('.'));
    let d = name.len() - text::trailing(name, Class::IsNot('.')) - 1;
    if d > 0 {
        assert(name[d] != '.');
    }
}

} // verus!
