//! The decisions of a local model backend: what it asks, how much it asks at
//! once, and what it makes of the replies. Running the model is left to the
//! caller.

use crate::brain::{Filing, Selection};
use crate::brain::prompt;
use crate::config::TaxonomyConfig;
use crate::order;
use crate::order::insert_ascending;
use crate::paths;
use crate::paths::stem_of;
use crate::text;
use crate::text::{join_texts, own, quoted, trim_text};
use crate::types;
use crate::types::{Digest, DigestView, Probe, Taxonomy};
use vstd::prelude::*;
use vstd::slice::slice_subrange;
use vstd::string::StringExecFns;

verus! {

/// Tokens one kept candidate costs in the reply.
///
/// `{"i":123,"l":1},` is about eleven; the allowance is deliberately generous
/// because running out mid-array yields unparseable JSON and the entire answer
/// is discarded, not merely shortened.
pub const HEADING_REPLY_TOKENS: usize = 16;

/// Fixed part of the reply budget, on top of the per-candidate cost.
pub const REPLY_SLACK: usize = 64;

/// Room left over the measured prompt, for the chat template and rounding.
pub const SAFETY_MARGIN: usize = 256;

/// Never ask about more than this many candidates at once, however large the
/// window: a reply of thousands of entries is slow and hard to check.
pub const MAX_HEADING_BATCH: usize = 200;

/// The longest reply that may list the folders of a taxonomy.
pub const MAX_TAXONOMY_REPLY: i32 = 4096;

/// Tokens allowed for a filing decision.
pub const FILING_REPLY: i32 = 192;

/// The name a backend goes by: its kind and the model's file name.
pub open spec fn labelled(prefix: Seq<char>, path: Seq<char>) -> Seq<char> {
    match paths::file_stem(path) {
        Some(stem) => prefix + ":"@ + stem,
        None => prefix,
    }
}

pub fn label(prefix: &str, path: &str) -> (r: String)
    ensures
        r@ == labelled(prefix@, path@),
{
    let mut out = own(prefix);
    if let Some(stem) = stem_of(path) {
        out.append(":");
        out.append(stem.as_str());
    }
    out
}

/// Output budget for a batch of `n` candidates, in the worst case where the
/// model keeps every one of them.
pub fn heading_reply_budget(n: usize) -> (r: i32)
    requires
        n * HEADING_REPLY_TOKENS + REPLY_SLACK <= i32::MAX,
    ensures
        r == n * HEADING_REPLY_TOKENS + REPLY_SLACK,
        r == n * 16 + 64,
{
    (n * HEADING_REPLY_TOKENS + REPLY_SLACK) as i32
}

/// How many catalogue lines are described to the model at once.
pub open spec fn lines_at_once(context: int) -> int {
    let fits = context / 2 / 30;
    if fits < 20 {
        20
    } else if fits > 400 {
        400
    } else {
        fits
    }
}

/// Roughly how many catalogue lines fit alongside the instructions.
pub fn catalogue_batch_size(context: u32) -> (r: usize)
    ensures
        r == lines_at_once(context as int),
        20 <= r <= 400,
        r > 20 ==> r * 60 <= context,
        r < 400 ==> context < (r + 1) * 60,
{
    // ~30 tokens per catalogue line, leaving half the window for output and slack.
    let fits: usize = (context as usize / 2) / 30;
    if fits < 20 {
        20
    } else if fits > 400 {
        400
    } else {
        fits
    }
}

/// A batch of the catalogue takes less than the whole window, so there is room
/// to answer, in any window of more than 600 tokens.
pub proof fn a_batch_leaves_room_to_answer(context: int)
    requires
        context > 600,
    ensures
        lines_at_once(context) * 30 < context,
{
}

/// A reply budget covers every candidate being kept.
pub proof fn a_reply_covers_every_candidate(n: nat)
    ensures
        n * HEADING_REPLY_TOKENS + REPLY_SLACK >= n * 11 + 8,
{
}

// ---------------------------------------------------------------------------
// Asking
// ---------------------------------------------------------------------------

/// One question to the model.
pub struct Question {
    pub system: String,
    pub user: String,
    pub grammar: String,
    pub max_tokens: i32,
}

pub struct QuestionView {
    pub system: Seq<char>,
    pub user: Seq<char>,
    pub grammar: Seq<char>,
    pub max_tokens: i32,
}

impl View for Question {
    type V = QuestionView;

    open spec fn view(&self) -> QuestionView {
        QuestionView {
            system: self.system@,
            user: self.user@,
            grammar: self.grammar@,
            max_tokens: self.max_tokens,
        }
    }
}

/// What a document is.
pub fn digest_question(probe: &Probe, max_tokens: i32) -> (r: Question)
    ensures
        r@ == (QuestionView {
            system: prompt::DIGEST_SYSTEM@,
            user: prompt::digest_request(probe@),
            grammar: prompt::digest_rules(),
            max_tokens,
        }),
{
    Question {
        system: prompt::digest_system(),
        user: prompt::digest_user(probe),
        grammar: prompt::digest_grammar(),
        max_tokens,
    }
}

/// What a rendered page shows. `marker` stands where the picture goes.
pub fn vision_question(marker: &str, probe: &Probe, max_tokens: i32) -> (r: Question)
    ensures
        r@ == (QuestionView {
            system: prompt::VISION_SYSTEM@,
            user: marker@ + "\n"@ + prompt::vision_request(probe@),
            grammar: prompt::digest_rules(),
            max_tokens,
        }),
{
    let mut user = own(marker);
    user.append("\n");
    user.append(prompt::vision_digest_user(probe).as_str());
    Question {
        system: prompt::vision_digest_system(),
        user,
        grammar: prompt::digest_grammar(),
        max_tokens,
    }
}

pub const KEEP_DESIGNED: &'static str =
    "\nFolders already designed for the rest of the collection — keep the ones \
that still fit and merge rather than duplicate:\n";

/// The catalogue, with the folders that earlier parts of it led to.
pub open spec fn design_request(
    chunk: Seq<DigestView>,
    designed: Seq<Seq<char>>,
) -> Seq<char> {
    if designed.len() == 0 {
        prompt::taxonomy_request(chunk)
    } else {
        prompt::taxonomy_request(chunk) + KEEP_DESIGNED@ + text::joined(designed, "\n"@) + "\n"@
    }
}

/// Tokens allowed for a taxonomy.
pub open spec fn design_budget(max_leaves: int) -> int {
    if max_leaves * 24 < MAX_TAXONOMY_REPLY {
        max_leaves * 24
    } else {
        MAX_TAXONOMY_REPLY as int
    }
}

/// Which folders suit a part of the collection and the folders that the parts
/// before it led to. The catalogue can outgrow the context window, so it is
/// folded down part by part, and late documents can still bend the tree.
pub fn design_question(chunk: &[Digest], designed: &Vec<String>, cfg: &TaxonomyConfig) -> (r:
    Question)
    ensures
        r.system@ == prompt::taxonomy_brief(cfg.max_leaves as nat, cfg.max_depth as nat),
        r.user@ == design_request(types::digest_views(chunk@), text::texts(designed@)),
        r.grammar@ == prompt::taxonomy_rules(cfg.max_leaves as nat, cfg.max_depth as nat),
        r.max_tokens == design_budget(cfg.max_leaves as int),
{
    let mut user = prompt::taxonomy_user(chunk);
    if designed.len() > 0 {
        user.append(KEEP_DESIGNED);
        user.append(join_texts(designed, "\n").as_str());
        user.append("\n");
    }
    let max_tokens: i32 = if cfg.max_leaves < 171 {
        cfg.max_leaves as i32 * 24
    } else {
        MAX_TAXONOMY_REPLY
    };
    Question {
        system: prompt::taxonomy_system(cfg),
        user,
        grammar: prompt::taxonomy_grammar(cfg),
        max_tokens,
    }
}

pub const EMPTY_TAXONOMY: &'static str = "model designed an empty taxonomy";

/// A folder that the model named in earnest.
pub open spec fn is_designed(leaves: Seq<Seq<char>>, leaf: Seq<char>) -> bool {
    leaves.contains(leaf) && text::trim(leaf).len() > 0
}

/// The taxonomy that a final list of folders makes: without blanks, sorted, and
/// each folder once.
pub fn finish_taxonomy(leaves: Vec<String>) -> (r: Result<Taxonomy, String>)
    ensures
        match r {
            Ok(t) => {
                &&& order::ascending(t.leaf_list())
                &&& forall|x: Seq<char>|
                    #[trigger] t.leaf_list().contains(x) <==> is_designed(text::texts(leaves@), x)
                &&& t.leaf_list().len() > 0
                &&& t.notes@.len() == 0
            },
            Err(why) => {
                &&& why@ == EMPTY_TAXONOMY@
                &&& forall|x: Seq<char>| !#[trigger] is_designed(text::texts(leaves@), x)
            },
        },
{
    let ghost all = text::texts(leaves@);
    let mut kept: Vec<String> = Vec::new();
    let mut i: usize = 0;
    assert(text::texts(kept@) =~= Seq::<Seq<char>>::empty());
    while i < leaves.len()
        invariant
            all == text::texts(leaves@),
            i <= leaves@.len(),
            order::ascending(text::texts(kept@)),
            forall|x: Seq<char>|
                #[trigger] text::texts(kept@).contains(x) <==> is_designed(all.take(i as int), x),
        decreases leaves@.len() - i,
    {
        let ghost before = text::texts(kept@);
        let ghost leaf = all[i as int];
        let full = !trim_text(leaves[i].as_str()).as_str().is_empty();
        if full {
            insert_ascending(&mut kept, leaves[i].clone());
        }
        proof {
            let part = all.take(i as int);
            let next = all.take(i + 1);
            assert(next =~= part.push(leaf));
            assert forall|x: Seq<char>| #[trigger]
                text::texts(kept@).contains(x) <==> is_designed(next, x) by {
                assert(before.contains(x) <==> is_designed(part, x));
                assert(next[i as int] == leaf);
                if part.contains(x) {
                    let j = choose|j: int| 0 <= j < part.len() && part[j] == x;
                    assert(next[j] == x);
                }
                if next.contains(x) && x != leaf {
                    let j = choose|j: int| 0 <= j < next.len() && next[j] == x;
                    assert(part[j] == x);
                }
            }
        }
        i = i + 1;
    }
    assert(all.take(i as int) =~= all);
    if kept.len() == 0 {
        assert forall|x: Seq<char>| !#[trigger] is_designed(all, x) by {
            assert(!text::texts(kept@).contains(x));
        }
        return Err(own(EMPTY_TAXONOMY));
    }
    Ok(Taxonomy { leaves: kept, notes: Vec::new() })
}

/// Where a document belongs.
pub fn filing_question(digest: &Digest, taxonomy: &Taxonomy) -> (r: Question)
    ensures
        r@ == (QuestionView {
            system: prompt::ASSIGN_SYSTEM@,
            user: prompt::assign_request(digest@, taxonomy.leaf_list()),
            grammar: prompt::filing_rules(taxonomy.leaf_list()),
            max_tokens: FILING_REPLY,
        }),
{
    Question {
        system: prompt::assign_system(),
        user: prompt::assign_user(digest, taxonomy),
        grammar: prompt::assign_grammar(taxonomy),
        max_tokens: FILING_REPLY,
    }
}

/// The model's choice, if the folder exists. The grammar already sees to that;
/// this verifies rather than trusts.
pub fn checked_filing(filing: Filing, taxonomy: &Taxonomy) -> (r: Result<Filing, String>)
    ensures
        taxonomy.leaf_list().contains(filing.folder@) ==> r == Ok::<Filing, String>(filing),
        !taxonomy.leaf_list().contains(filing.folder@) ==> (r matches Err(why) && why@
            == "model chose folder "@ + text::quoted_text(filing.folder@)
            + ", which is not in the taxonomy"@),
{
    if taxonomy.contains(filing.folder.as_str()) {
        return Ok(filing);
    }
    let mut why = own("model chose folder ");
    why.append(quoted(filing.folder.as_str()).as_str());
    why.append(", which is not in the taxonomy");
    Err(why)
}

// ---------------------------------------------------------------------------
// Headings, a batch at a time
// ---------------------------------------------------------------------------

/// The room for a prompt and its reply.
pub open spec fn room(context: int) -> int {
    if context > SAFETY_MARGIN {
        context - SAFETY_MARGIN
    } else {
        0
    }
}

/// A measurement said that asking about the headings up to `take` costs `tokens`.
pub open spec fn measured<M: Fn(&str, &str) -> usize>(
    measure: M,
    lines: Seq<(usize, String, usize)>,
    take: int,
    system: &str,
    user: &str,
    tokens: usize,
) -> bool {
    &&& system@ == prompt::HEADINGS_SYSTEM@
    &&& user@ == prompt::headings_request(lines.take(take))
    &&& call_ensures(measure, (system, user), tokens)
}

/// What a batch of `take` lines costs in all, when its prompt costs `tokens`: the
/// prompt and the reply, as far as a machine word can count.
pub open spec fn batch_cost(tokens: usize, take: int) -> int {
    let cost = tokens + take * HEADING_REPLY_TOKENS + REPLY_SLACK;
    if cost > usize::MAX {
        usize::MAX as int
    } else {
        cost
    }
}

/// A measurement said that the headings up to `take` cost `tokens`, and with
/// the reply they fit the window.
pub open spec fn fits<M: Fn(&str, &str) -> usize>(
    measure: M,
    lines: Seq<(usize, String, usize)>,
    context: int,
    take: int,
    system: &str,
    user: &str,
    tokens: usize,
) -> bool {
    &&& measured(measure, lines, take, system, user, tokens)
    &&& batch_cost(tokens, take) <= room(context)
}

/// How many lines are tried first.
pub open spec fn first_try(lines: Seq<(usize, String, usize)>) -> int {
    if lines.len() < MAX_HEADING_BATCH {
        lines.len() as int
    } else {
        MAX_HEADING_BATCH as int
    }
}

/// A measurement said that the headings up to `take` do not fit the window.
pub open spec fn overflows<M: Fn(&str, &str) -> usize>(
    measure: M,
    lines: Seq<(usize, String, usize)>,
    context: int,
    take: int,
) -> bool {
    exists|system: &str, user: &str, tokens: usize| #[trigger]
        measured(measure, lines, take, system, user, tokens) && batch_cost(tokens, take) > room(
            context,
        )
}

/// The largest leading slice of `lines` whose prompt and reply both fit.
///
/// Measured with the model's own tokeniser rather than estimated: `measure`
/// says what a system and a user turn cost. A single line is taken whatever it
/// costs.
pub fn fitting_batch<M: Fn(&str, &str) -> usize>(
    measure: &M,
    lines: &[(usize, String, usize)],
    context: u32,
) -> (r: usize)
    requires
        forall|a: &str, b: &str| #[trigger] call_requires(*measure, (a, b)),
    ensures
        1 <= r <= MAX_HEADING_BATCH,
        r <= 200,
        lines@.len() > 0 ==> r <= lines@.len(),
        r > 1 ==> exists|system: &str, user: &str, tokens: usize| #[trigger]
            fits(*measure, lines@, context as int, r as int, system, user, tokens),
        forall|k: int|
            r < k <= first_try(lines@) ==> #[trigger] overflows(
                *measure,
                lines@,
                context as int,
                k,
            ),
{
    let budget: usize = if context as usize > SAFETY_MARGIN {
        context as usize - SAFETY_MARGIN
    } else {
        0
    };
    let system = prompt::headings_system();
    let mut take: usize = if lines.len() < MAX_HEADING_BATCH {
        lines.len()
    } else {
        MAX_HEADING_BATCH
    };
    while take > 1
        invariant
            take <= first_try(lines@),
            lines@.len() > 0 ==> 1 <= take,
            budget == room(context as int),
            system@ == prompt::HEADINGS_SYSTEM@,
            forall|a: &str, b: &str| #[trigger] call_requires(*measure, (a, b)),
            forall|k: int|
                take < k <= first_try(lines@) ==> #[trigger] overflows(
                    *measure,
                    lines@,
                    context as int,
                    k,
                ),
        decreases take,
    {
        let chunk = slice_subrange(lines, 0, take);
        assert(chunk@ =~= lines@.take(take as int));
        let user = prompt::headings_user(chunk);
        let sys_text = system.as_str();
        let user_text = user.as_str();
        let tokens: usize = measure(sys_text, user_text);
        let reply: usize = heading_reply_budget(take) as usize;
        let cost: usize = tokens.saturating_add(reply);
        assert(measured(*measure, lines@, take as int, sys_text, user_text, tokens));
        assert(cost == batch_cost(tokens, take as int));
        if cost <= budget {
            assert(fits(
                *measure,
                lines@,
                context as int,
                take as int,
                sys_text,
                user_text,
                tokens,
            ));
            return take;
        }
        assert(overflows(*measure, lines@, context as int, take as int));
        take = take - 1;
    }
    1
}

/// Whether a line number stands among some lines.
pub open spec fn numbered(lines: Seq<(usize, String, usize)>, n: usize) -> bool {
    exists|k: int| 0 <= k < lines.len() && (#[trigger] lines[k]).0 == n
}

/// The deepest level that a limit leaves.
pub open spec fn capped_level(level: usize, max_level: usize) -> usize {
    if max_level == 0 {
        0
    } else if level < max_level {
        level
    } else {
        (max_level - 1) as usize
    }
}

/// The picks that stand among the lines they answer to, in order, with their
/// levels kept in bounds. An index outside the batch is a mistake, and dropping
/// it costs one heading rather than corrupting the outline.
pub open spec fn accepted(
    chunk: Seq<(usize, String, usize)>,
    picks: Seq<Selection>,
    max_level: usize,
) -> Seq<(usize, usize)>
    decreases picks.len(),
{
    if picks.len() == 0 {
        seq![]
    } else {
        let p = picks.last();
        let before = accepted(chunk, picks.drop_last(), max_level);
        if numbered(chunk, p.i) {
            before.push((p.i, capped_level(p.l, max_level)))
        } else {
            before
        }
    }
}

fn stands_among(lines: &[(usize, String, usize)], n: usize) -> (r: bool)
    ensures
        r == numbered(lines@, n),
{
    let mut k: usize = 0;
    while k < lines.len()
        invariant
            k <= lines@.len(),
            forall|j: int| 0 <= j < k ==> (#[trigger] lines@[j]).0 != n,
        decreases lines@.len() - k,
    {
        if lines[k].0 == n {
            return true;
        }
        k = k + 1;
    }
    false
}

/// The first of the picks that name a line.
pub open spec fn is_first_pick(kept: Seq<(usize, usize)>, p: (usize, usize)) -> bool {
    exists|k: int|
        0 <= k < kept.len() && #[trigger] kept[k] == p && forall|j: int|
            0 <= j < k ==> (#[trigger] kept[j]).0 != p.0
}

/// Strictly ascending by line.
pub open spec fn in_line_order(v: Seq<(usize, usize)>) -> bool {
    forall|a: int, b: int| 0 <= a < b < v.len() ==> (#[trigger] v[a]).0 < (#[trigger] v[b]).0
}

/// A refinement under way: how many lines have been judged, and what was kept.
pub struct Refining {
    pub judged: usize,
    pub kept: Vec<(usize, usize)>,
}

/// The highest line number.
pub open spec fn highest(lines: Seq<(usize, String, usize)>) -> int
    decreases lines.len(),
{
    if lines.len() == 0 {
        0
    } else {
        let before = highest(lines.drop_last());
        if lines.last().0 > before {
            lines.last().0 as int
        } else {
            before
        }
    }
}

fn highest_line(lines: &Vec<(usize, String, usize)>) -> (r: usize)
    ensures
        r == highest(lines@),
{
    let mut best: usize = 0;
    let mut i: usize = 0;
    assert(lines@.take(0) =~= Seq::<(usize, String, usize)>::empty());
    while i < lines.len()
        invariant
            i <= lines@.len(),
            best == highest(lines@.take(i as int)),
        decreases lines@.len() - i,
    {
        assert(lines@.take(i + 1).drop_last() =~= lines@.take(i as int));
        if lines[i].0 > best {
            best = lines[i].0;
        }
        i = i + 1;
    }
    assert(lines@.take(i as int) =~= lines@);
    best
}

impl Refining {
    pub fn new() -> (r: Self)
        ensures
            r.judged == 0,
            r.kept@.len() == 0,
    {
        Refining { judged: 0, kept: Vec::new() }
    }

    /// Which of the next `take` lines belong in the table of contents.
    pub fn ask(
        &self,
        lines: &Vec<(usize, String, usize)>,
        take: usize,
        max_level: usize,
    ) -> (r: Question)
        requires
            self.judged + take <= lines@.len(),
            take <= MAX_HEADING_BATCH,
        ensures
            r.system@ == prompt::HEADINGS_SYSTEM@,
            r.user@ == prompt::headings_request(
                lines@.subrange(self.judged as int, self.judged + take),
            ),
            r.grammar@ == prompt::heading_rules(highest(lines@) as nat, max_level as nat),
            r.max_tokens == take * HEADING_REPLY_TOKENS + REPLY_SLACK,
    {
        let all = lines.as_slice();
        let total: usize = all.len();
        assert(self.judged + take <= total);
        let chunk = slice_subrange(all, self.judged, self.judged + take);
        Question {
            system: prompt::headings_system(),
            user: prompt::headings_user(chunk),
            grammar: prompt::headings_grammar(highest_line(lines), max_level),
            max_tokens: heading_reply_budget(take),
        }
    }

    /// Take in the reply about the next `take` lines.
    pub fn answer(
        &mut self,
        lines: &Vec<(usize, String, usize)>,
        take: usize,
        picks: &Vec<Selection>,
        max_level: usize,
    )
        requires
            old(self).judged + take <= lines@.len(),
        ensures
            final(self).judged == old(self).judged + take,
            final(self).kept@ == old(self).kept@ + accepted(
                lines@.subrange(old(self).judged as int, old(self).judged + take),
                picks@,
                max_level,
            ),
    {
        let from: usize = self.judged;
        let all = lines.as_slice();
        let total: usize = all.len();
        assert(from + take <= total);
        let chunk = slice_subrange(all, from, from + take);
        let ghost start = self.kept@;
        let mut i: usize = 0;
        assert(picks@.take(0) =~= Seq::<Selection>::empty());
        assert(self.kept@ =~= start + accepted(chunk@, picks@.take(0), max_level));
        while i < picks.len()
            invariant
                i <= picks@.len(),
                self.judged == from,
                self.kept@ == start + accepted(chunk@, picks@.take(i as int), max_level),
            decreases picks@.len() - i,
        {
            let p = picks[i];
            assert(picks@.take(i + 1).drop_last() =~= picks@.take(i as int));
            if stands_among(chunk, p.i) {
                let level: usize = if max_level == 0 {
                    0
                } else if p.l < max_level {
                    p.l
                } else {
                    max_level - 1
                };
                self.kept.push((p.i, level));
            }
            assert(self.kept@ =~= start + accepted(chunk@, picks@.take(i + 1), max_level));
            i = i + 1;
        }
        assert(picks@.take(i as int) =~= picks@);
        self.judged = from + take;
    }

    /// The picks in line order, the first one for each line.
    pub fn finish(self) -> (r: Vec<(usize, usize)>)
        ensures
            in_line_order(r@),
            forall|p: (usize, usize)| #[trigger] r@.contains(p) <==> is_first_pick(self.kept@, p),
            forall|k: int|
                0 <= k < self.kept@.len() && (forall|j: int|
                    0 <= j < k ==> (#[trigger] self.kept@[j]).0 != self.kept@[k].0)
                    ==> r@.contains(#[trigger] self.kept@[k]),
    {
        let ghost all = self.kept@;
        let mut out: Vec<(usize, usize)> = Vec::new();
        let mut i: usize = 0;
        while i < self.kept.len()
            invariant
                all == self.kept@,
                i <= all.len(),
                in_line_order(out@),
                forall|p: (usize, usize)| #[trigger]
                    out@.contains(p) <==> is_first_pick(all.take(i as int), p),
            decreases all.len() - i,
        {
            let ghost before = out@;
            insert_pick(&mut out, self.kept[i]);
            proof {
                lemma_first_picks(all, i as int, before, out@);
            }
            i = i + 1;
        }
        assert(all.take(i as int) =~= all);
        assert forall|k: int|
            0 <= k < all.len() && (forall|j: int|
                0 <= j < k ==> (#[trigger] all[j]).0 != all[k].0) implies out@.contains(
            #[trigger] all[k],
        ) by {
            assert(is_first_pick(all, all[k]));
        }
        out
    }
}

pub open spec fn names_line(v: Seq<(usize, usize)>, n: usize) -> bool {
    exists|k: int| 0 <= k < v.len() && (#[trigger] v[k]).0 == n
}

/// Put a pick in its place, unless its line is there already.
fn insert_pick(list: &mut Vec<(usize, usize)>, p: (usize, usize))
    requires
        in_line_order(old(list)@),
    ensures
        in_line_order(final(list)@),
        names_line(old(list)@, p.0) ==> final(list)@ == old(list)@,
        !names_line(old(list)@, p.0) ==> forall|q: (usize, usize)| #[trigger]
            final(list)@.contains(q) <==> (q == p || old(list)@.contains(q)),
{
    let ghost start = list@;
    let mut i: usize = 0;
    while i < list.len() && list[i].0 < p.0
        invariant
            list@ == start,
            i <= start.len(),
            forall|j: int| 0 <= j < i ==> (#[trigger] start[j]).0 < p.0,
        decreases start.len() - i,
    {
        i = i + 1;
    }
    if i < list.len() && list[i].0 == p.0 {
        assert(start[i as int].0 == p.0);
        return;
    }
    list.insert(i, p);
    proof {
        let done = start.insert(i as int, p);
        assert(list@ == done);
        assert forall|j: int| i <= j < start.len() implies p.0 < (#[trigger] start[j]).0 by {
            assert(start[i as int].0 > p.0);
        }
        assert forall|a: int, b: int| 0 <= a < b < done.len() implies (#[trigger] done[a]).0 < (
        #[trigger] done[b]).0 by {
            let x = if a < i {
                a
            } else {
                a - 1
            };
            let y = if b < i {
                b
            } else {
                b - 1
            };
            if a == i {
                assert(done[b] == start[y]);
            } else if b == i {
                assert(done[a] == start[x]);
            } else {
                assert(done[a] == start[x] && done[b] == start[y]);
            }
        }
        assert forall|q: (usize, usize)| #[trigger]
            done.contains(q) <==> (q == p || start.contains(q)) by {
            assert(done[i as int] == p);
            if done.contains(q) && q != p {
                let k = choose|k: int| 0 <= k < done.len() && done[k] == q;
                if k < i {
                    assert(start[k] == q);
                } else {
                    assert(start[k - 1] == q);
                }
            }
            if start.contains(q) {
                let k = choose|k: int| 0 <= k < start.len() && start[k] == q;
                if k < i {
                    assert(done[k] == q);
                } else {
                    assert(done[k + 1] == q);
                }
            }
        }
    }
}

proof fn lemma_first_picks(
    all: Seq<(usize, usize)>,
    n: int,
    before: Seq<(usize, usize)>,
    after: Seq<(usize, usize)>,
)
    requires
        0 <= n < all.len(),
        forall|p: (usize, usize)| #[trigger]
            before.contains(p) <==> is_first_pick(all.take(n), p),
        names_line(before, all[n].0) ==> after == before,
        !names_line(before, all[n].0) ==> forall|q: (usize, usize)| #[trigger]
            after.contains(q) <==> (q == all[n] || before.contains(q)),
    ensures
        forall|p: (usize, usize)| #[trigger]
            after.contains(p) <==> is_first_pick(all.take(n + 1), p),
{
    let part = all.take(n);
    let next = all.take(n + 1);
    let new = all[n];
    assert(next =~= part.push(new));
    if names_line(part, new.0) {
        lemma_first_exists(part, new.0);
        let p = choose|p: (usize, usize)| p.0 == new.0 && #[trigger] is_first_pick(part, p);
        assert(before.contains(p));
        let k = choose|k: int| 0 <= k < before.len() && before[k] == p;
        assert(before[k].0 == new.0);
    } else {
        if names_line(before, new.0) {
            let k = choose|k: int| 0 <= k < before.len() && (#[trigger] before[k]).0 == new.0;
            assert(before.contains(before[k]));
            let j = choose|j: int|
                0 <= j < part.len() && #[trigger] part[j] == before[k] && forall|i: int|
                    0 <= i < j ==> (#[trigger] part[i]).0 != before[k].0;
            assert(part[j].0 == new.0);
        }
    }
    assert forall|p: (usize, usize)| #[trigger] after.contains(p) <==> is_first_pick(next, p) by {
        if is_first_pick(part, p) {
            let k = choose|k: int|
                0 <= k < part.len() && #[trigger] part[k] == p && forall|j: int|
                    0 <= j < k ==> (#[trigger] part[j]).0 != p.0;
            assert(next[k] == p);
            assert forall|j: int| 0 <= j < k implies (#[trigger] next[j]).0 != p.0 by {
                assert(part[j] == next[j]);
            }
            assert(is_first_pick(next, p));
            assert(before.contains(p));
        }
        if is_first_pick(next, p) {
            let k = choose|k: int|
                0 <= k < next.len() && #[trigger] next[k] == p && forall|j: int|
                    0 <= j < k ==> (#[trigger] next[j]).0 != p.0;
            if k < n {
                assert(part[k] == p);
                assert forall|j: int| 0 <= j < k implies (#[trigger] part[j]).0 != p.0 by {
                    assert(part[j] == next[j]);
                }
                assert(is_first_pick(part, p));
            } else {
                if names_line(part, new.0) {
                    let j = choose|j: int| 0 <= j < part.len() && (#[trigger] part[j]).0 == new.0;
                    assert(next[j].0 == p.0);
                }
            }
        }
        if p == new && !names_line(part, new.0) {
            assert(next[n] == p);
            assert forall|j: int| 0 <= j < n implies (#[trigger] next[j]).0 != p.0 by {
                assert(part[j] == next[j]);
            }
            assert(is_first_pick(next, p));
        }
    }
}

proof fn lemma_first_exists(v: Seq<(usize, usize)>, n: usize)
    requires
        names_line(v, n),
    ensures
        exists|p: (usize, usize)| p.0 == n && #[trigger] is_first_pick(v, p),
    decreases v.len(),
{
    let k = choose|k: int| 0 <= k < v.len() && (#[trigger] v[k]).0 == n;
    let part = v.drop_last();
    if names_line(part, n) {
        lemma_first_exists(part, n);
        let p = choose|p: (usize, usize)| p.0 == n && #[trigger] is_first_pick(part, p);
        let j = choose|j: int|
            0 <= j < part.len() && #[trigger] part[j] == p && forall|i: int|
                0 <= i < j ==> (#[trigger] part[i]).0 != p.0;
        assert(v[j] == p);
        assert forall|i: int| 0 <= i < j implies (#[trigger] v[i]).0 != p.0 by {
            assert(part[i] == v[i]);
        }
        assert(is_first_pick(v, p));
    } else {
        if k < part.len() {
            assert(part[k].0 == n);
        }
        assert forall|i: int| 0 <= i < k implies (#[trigger] v[i]).0 != n by {
            assert(part[i] == v[i]);
        }
        assert(is_first_pick(v, v[k]));
    }
}

/// The model can only choose among the lines it was shown: every pick taken in
/// names a line of its batch, at a level within the limit.
pub proof fn picks_stand_among_the_lines(
    chunk: Seq<(usize, String, usize)>,
    picks: Seq<Selection>,
    max_level: usize,
    k: int,
)
    requires
        0 <= k < accepted(chunk, picks, max_level).len(),
    ensures
        numbered(chunk, accepted(chunk, picks, max_level)[k].0),
        max_level > 0 ==> accepted(chunk, picks, max_level)[k].1 < max_level,
        max_level == 0 ==> accepted(chunk, picks, max_level)[k].1 == 0,
    decreases picks.len(),
{
    let before = accepted(chunk, picks.drop_last(), max_level);
    if k < before.len() {
        picks_stand_among_the_lines(chunk, picks.drop_last(), max_level, k);
    }
}

/// Picks that all name a line of their batch, at levels within the limit, are taken
/// in as they are.
pub proof fn sound_picks_are_taken_in(
    chunk: Seq<(usize, String, usize)>,
    picks: Seq<Selection>,
    max_level: usize,
    k: int,
)
    requires
        0 <= k < picks.len(),
        forall|j: int|
            0 <= j < picks.len() ==> (#[trigger] picks[j]).l < max_level && exists|m: int|
                0 <= m < chunk.len() && (#[trigger] chunk[m]).0 == picks[j].i,
    ensures
        accepted(chunk, picks, max_level).len() == picks.len(),
        accepted(chunk, picks, max_level)[k] == (picks[k].i, picks[k].l),
    decreases picks.len(),
{
    let front = picks.drop_last();
    let last = picks[picks.len() - 1];
    assert(last.l < max_level && exists|m: int|
        0 <= m < chunk.len() && (#[trigger] chunk[m]).0 == last.i);
    assert(numbered(chunk, last.i));
    if front.len() > 0 {
        assert forall|j: int| 0 <= j < front.len() implies (#[trigger] front[j]).l < max_level
            && exists|m: int| 0 <= m < chunk.len() && (#[trigger] chunk[m]).0 == front[j].i by {
            assert(picks[j] == front[j]);
            assert(picks[j].l < max_level);
        }
        if k < front.len() {
            sound_picks_are_taken_in(chunk, front, max_level, k);
        } else {
            sound_picks_are_taken_in(chunk, front, max_level, 0);
        }
    } else {
        assert(accepted(chunk, front, max_level).len() == 0);
    }
}

/// Whether a pick was taken in: with its own level where the limit leaves it, and
/// otherwise with the deepest one that the limit leaves.
pub open spec fn is_taken_in(taken: Seq<(usize, usize)>, pick: Selection, max_level: usize) -> bool {
    exists|m: int|
        0 <= m < taken.len() && (#[trigger] taken[m]).0 == pick.i && (pick.l < max_level
            ==> taken[m].1 == pick.l) && (0 < max_level <= pick.l ==> taken[m].1 + 1 == max_level)
            && (max_level == 0 ==> taken[m].1 == 0)
}

/// Every pick that names a line of its batch is taken in, however many others do not
/// and however deep its level is.
pub proof fn every_pick_of_a_line_is_taken_in(
    chunk: Seq<(usize, String, usize)>,
    picks: Seq<Selection>,
    max_level: usize,
    j: int,
    line: int,
)
    requires
        0 <= j < picks.len(),
        0 <= line < chunk.len(),
        chunk[line].0 == picks[j].i,
    ensures
        is_taken_in(accepted(chunk, picks, max_level), picks[j], max_level),
    decreases picks.len(),
{
    let front = picks.drop_last();
    let before = accepted(chunk, front, max_level);
    let all = accepted(chunk, picks, max_level);
    if j < front.len() {
        assert(front[j] == picks[j]);
        every_pick_of_a_line_is_taken_in(chunk, front, max_level, j, line);
        let m = choose|m: int|
            0 <= m < before.len() && (#[trigger] before[m]).0 == picks[j].i && (picks[j].l
                < max_level ==> before[m].1 == picks[j].l) && (0 < max_level <= picks[j].l
                ==> before[m].1 + 1 == max_level) && (max_level == 0 ==> before[m].1 == 0);
        assert(all[m] == before[m]);
    } else {
        assert(numbered(chunk, picks[j].i));
        assert(all == before.push(all[before.len() as int]));
        let m: int = before.len() as int;
        assert(all[m].0 == picks[j].i);
    }
}

} // verus!
