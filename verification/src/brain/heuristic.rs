//! Rules-based backend: no model, no GPU.
//!
//! It exists so the scan/plan/apply pipeline can be run and tested end to end
//! without a GGUF file, and so a run still produces something sane if the model
//! is unavailable. It reads the same probe text the model does, just with
//! keyword tables instead of comprehension.

use regex::Regex;
use crate::brain::{Brain, DigestFields, DigestFieldsView, Filing, FilingView};
use crate::config::TaxonomyConfig;
use crate::float;
use crate::float::{Format, from_whole, multiply, plus, reduce};
use crate::natural;
use crate::order;
use crate::order::sort_texts;
use crate::systems;
use crate::text;
use crate::text::{alphabetic, append_chars, chars_of, collapse, contains, contains_chars, copy_range, holds_text, join_chars, lowercase, own, replace_chars, same, text_of, trim_text, uppercase, utf8_len, word_list};
use crate::types;
use crate::types::{Digest, DigestView, Probe, ProbeView, Taxonomy};
use vstd::prelude::*;
use vstd::string::StringExecFns;

verus! {

pub struct Heuristic;

// ---------------------------------------------------------------------------
// Keyword tables
// ---------------------------------------------------------------------------

/// Words that give a game system away, with the system. The first hit wins.
pub open spec fn system_words() -> Seq<(Seq<char>, Seq<char>)> {
    seq![
        ("pathfinder second edition"@, "Pathfinder 2e"@),
        ("pathfinder 2e"@, "Pathfinder 2e"@),
        ("pathfinder"@, "Pathfinder 1e"@),
        ("pzo"@, "Pathfinder 1e"@),
        ("starfinder"@, "Starfinder"@),
        ("call of cthulhu"@, "Call of Cthulhu"@),
        ("shadowrun"@, "Shadowrun"@),
        ("vampire the masquerade"@, "World of Darkness"@),
        ("fifth edition"@, "D&D 5e"@),
        ("5th edition"@, "D&D 5e"@),
        ("dungeons & dragons"@, "D&D 5e"@),
        ("dungeons and dragons"@, "D&D 5e"@),
        ("d&d 5e"@, "D&D 5e"@),
        ("5e"@, "D&D 5e"@),
        ("3.5"@, "D&D 3.5e"@),
        ("advanced dungeons"@, "AD&D"@),
    ]
}

fn system_table() -> (r: Vec<(&'static str, &'static str)>)
    ensures
        systems::pair_texts(r@) == system_words(),
{
    let v: Vec<(&'static str, &'static str)> = vec![
        ("pathfinder second edition", "Pathfinder 2e"),
        ("pathfinder 2e", "Pathfinder 2e"),
        ("pathfinder", "Pathfinder 1e"),
        ("pzo", "Pathfinder 1e"),
        ("starfinder", "Starfinder"),
        ("call of cthulhu", "Call of Cthulhu"),
        ("shadowrun", "Shadowrun"),
        ("vampire the masquerade", "World of Darkness"),
        ("fifth edition", "D&D 5e"),
        ("5th edition", "D&D 5e"),
        ("dungeons & dragons", "D&D 5e"),
        ("dungeons and dragons", "D&D 5e"),
        ("d&d 5e", "D&D 5e"),
        ("5e", "D&D 5e"),
        ("3.5", "D&D 3.5e"),
        ("advanced dungeons", "AD&D"),
    ];
    assert(systems::pair_texts(v@) =~= system_words());
    v
}

/// Words that give a document type away, with the type. The first hit wins.
pub open spec fn type_words() -> Seq<(Seq<char>, Seq<char>)> {
    seq![
        ("character sheet"@, "character sheet"@),
        ("atelier"@, "generator"@),
        ("generator"@, "generator"@),
        ("random table"@, "random tables"@),
        ("d100"@, "random tables"@),
        ("bestiary"@, "bestiary"@),
        ("menagerie"@, "bestiary"@),
        ("monster manual"@, "bestiary"@),
        ("monsters"@, "bestiary"@),
        ("magic item"@, "magic items"@),
        ("item compendium"@, "magic items"@),
        ("spell"@, "spells"@),
        ("battle map"@, "maps"@),
        ("map pack"@, "maps"@),
        ("player's handbook"@, "core rules"@),
        ("dungeon master's guide"@, "core rules"@),
        ("basic rules"@, "core rules"@),
        ("system reference document"@, "core rules"@),
        ("core rulebook"@, "core rules"@),
        ("campaign setting"@, "setting"@),
        ("gazetteer"@, "setting"@),
        ("adventure path"@, "adventure"@),
        ("adventure"@, "adventure"@),
        ("module"@, "adventure"@),
        ("one-shot"@, "adventure"@),
        ("oneshot"@, "adventure"@),
        ("dungeon"@, "adventure"@),
        ("subclass"@, "character options"@),
        ("subclasses"@, "character options"@),
        ("race"@, "character options"@),
        ("lineage"@, "character options"@),
        ("background"@, "character options"@),
        ("feats"@, "character options"@),
        ("class"@, "character options"@),
        ("sourcebook"@, "sourcebook"@),
        ("supplement"@, "sourcebook"@),
        ("handbook"@, "sourcebook"@),
        ("compendium"@, "sourcebook"@),
        ("guide"@, "sourcebook"@),
    ]
}

fn type_table() -> (r: Vec<(&'static str, &'static str)>)
    ensures
        systems::pair_texts(r@) == type_words(),
{
    let v: Vec<(&'static str, &'static str)> = vec![
        ("character sheet", "character sheet"),
        ("atelier", "generator"),
        ("generator", "generator"),
        ("random table", "random tables"),
        ("d100", "random tables"),
        ("bestiary", "bestiary"),
        ("menagerie", "bestiary"),
        ("monster manual", "bestiary"),
        ("monsters", "bestiary"),
        ("magic item", "magic items"),
        ("item compendium", "magic items"),
        ("spell", "spells"),
        ("battle map", "maps"),
        ("map pack", "maps"),
        ("player's handbook", "core rules"),
        ("dungeon master's guide", "core rules"),
        ("basic rules", "core rules"),
        ("system reference document", "core rules"),
        ("core rulebook", "core rules"),
        ("campaign setting", "setting"),
        ("gazetteer", "setting"),
        ("adventure path", "adventure"),
        ("adventure", "adventure"),
        ("module", "adventure"),
        ("one-shot", "adventure"),
        ("oneshot", "adventure"),
        ("dungeon", "adventure"),
        ("subclass", "character options"),
        ("subclasses", "character options"),
        ("race", "character options"),
        ("lineage", "character options"),
        ("background", "character options"),
        ("feats", "character options"),
        ("class", "character options"),
        ("sourcebook", "sourcebook"),
        ("supplement", "sourcebook"),
        ("handbook", "sourcebook"),
        ("compendium", "sourcebook"),
        ("guide", "sourcebook"),
    ];
    assert(systems::pair_texts(v@) =~= type_words());
    v
}

/// Campaign settings: the name in lower case, and as it is written.
pub open spec fn setting_words() -> Seq<(Seq<char>, Seq<char>)> {
    seq![
        ("forgotten realms"@, "Forgotten Realms"@),
        ("eberron"@, "Eberron"@),
        ("ravenloft"@, "Ravenloft"@),
        ("spelljammer"@, "Spelljammer"@),
        ("dragonlance"@, "Dragonlance"@),
        ("greyhawk"@, "Greyhawk"@),
        ("dark sun"@, "Dark Sun"@),
        ("planescape"@, "Planescape"@),
        ("theros"@, "Theros"@),
        ("ravnica"@, "Ravnica"@),
        ("exandria"@, "Exandria"@),
        ("wildemount"@, "Wildemount"@),
        ("strixhaven"@, "Strixhaven"@),
        ("golarion"@, "Golarion"@),
        ("faerun"@, "Faerun"@),
        ("faerûn"@, "Faerûn"@),
    ]
}

fn setting_table() -> (r: Vec<(&'static str, &'static str)>)
    ensures
        systems::pair_texts(r@) == setting_words(),
{
    let v: Vec<(&'static str, &'static str)> = vec![
        ("forgotten realms", "Forgotten Realms"),
        ("eberron", "Eberron"),
        ("ravenloft", "Ravenloft"),
        ("spelljammer", "Spelljammer"),
        ("dragonlance", "Dragonlance"),
        ("greyhawk", "Greyhawk"),
        ("dark sun", "Dark Sun"),
        ("planescape", "Planescape"),
        ("theros", "Theros"),
        ("ravnica", "Ravnica"),
        ("exandria", "Exandria"),
        ("wildemount", "Wildemount"),
        ("strixhaven", "Strixhaven"),
        ("golarion", "Golarion"),
        ("faerun", "Faerun"),
        ("faerûn", "Faerûn"),
    ];
    assert(systems::pair_texts(v@) =~= setting_words());
    v
}

/// The value of the first pair whose key occurs in a text.
pub open spec fn first_hit(table: Seq<(Seq<char>, Seq<char>)>, hay: Seq<char>) -> Option<Seq<char>>
    decreases table.len(),
{
    if table.len() == 0 {
        None
    } else if text::contains_text(hay, table[0].0) {
        Some(table[0].1)
    } else {
        first_hit(table.drop_first(), hay)
    }
}

/// Whether the key at `i` is the earliest of a table that occurs in a text.
pub open spec fn is_earliest(table: Seq<(Seq<char>, Seq<char>)>, hay: Seq<char>, i: int) -> bool {
    &&& 0 <= i < table.len()
    &&& text::contains_text(hay, table[i].0)
    &&& forall|j: int| 0 <= j < i ==> !text::contains_text(hay, (#[trigger] table[j]).0)
}

/// Whether no key of a table occurs in a text.
pub open spec fn is_silent(table: Seq<(Seq<char>, Seq<char>)>, hay: Seq<char>) -> bool {
    forall|j: int| 0 <= j < table.len() ==> !text::contains_text(hay, (#[trigger] table[j]).0)
}

proof fn lemma_earliest(table: Seq<(Seq<char>, Seq<char>)>, hay: Seq<char>, i: int)
    requires
        is_earliest(table, hay, i),
    ensures
        first_hit(table, hay) == Some(table[i].1),
    decreases table.len(),
{
    if i > 0 {
        let rest = table.drop_first();
        assert(!text::contains_text(hay, table[0].0));
        assert forall|j: int| 0 <= j < i - 1 implies !text::contains_text(
            hay,
            (#[trigger] rest[j]).0,
        ) by {
            assert(rest[j] == table[j + 1]);
        }
        lemma_earliest(rest, hay, i - 1);
    }
}

proof fn lemma_silent(table: Seq<(Seq<char>, Seq<char>)>, hay: Seq<char>)
    requires
        is_silent(table, hay),
    ensures
        first_hit(table, hay) is None,
    decreases table.len(),
{
    if table.len() > 0 {
        let rest = table.drop_first();
        assert(!text::contains_text(hay, table[0].0));
        assert forall|j: int| 0 <= j < rest.len() implies !text::contains_text(
            hay,
            (#[trigger] rest[j]).0,
        ) by {
            assert(rest[j] == table[j + 1]);
        }
        lemma_silent(rest, hay);
    }
}

/// A text in which some key of a table occurs has an earliest one.
pub proof fn some_key_is_earliest(table: Seq<(Seq<char>, Seq<char>)>, hay: Seq<char>, k: int) -> (i:
    int)
    requires
        0 <= k < table.len(),
        text::contains_text(hay, table[k].0),
    ensures
        is_earliest(table, hay, i),
        i <= k,
    decreases k,
{
    if exists|j: int| 0 <= j < k && text::contains_text(hay, (#[trigger] table[j]).0) {
        let j = choose|j: int|
            0 <= j < k && text::contains_text(hay, (#[trigger] table[j]).0);
        some_key_is_earliest(table, hay, j)
    } else {
        k
    }
}

/// First matching value from a keyword table, searching name before body text.
pub open spec fn looked_up(
    table: Seq<(Seq<char>, Seq<char>)>,
    name: Seq<char>,
    body: Seq<char>,
) -> Option<Seq<char>> {
    match first_hit(table, name) {
        Some(v) => Some(v),
        None => first_hit(table, body),
    }
}

fn find_hit(table: &Vec<(&'static str, &'static str)>, hay: &str) -> (r: Option<&'static str>)
    ensures
        match r {
            Some(v) => first_hit(systems::pair_texts(table@), hay@) == Some(v@),
            None => first_hit(systems::pair_texts(table@), hay@) is None,
        },
{
    let ghost all = systems::pair_texts(table@);
    let mut i: usize = 0;
    assert(all.skip(0) =~= all);
    while i < table.len()
        invariant
            i <= table@.len(),
            all == systems::pair_texts(table@),
            first_hit(all, hay@) == first_hit(all.skip(i as int), hay@),
        decreases table@.len() - i,
    {
        let (needle, value) = table[i];
        assert(all.skip(i as int)[0] == (needle@, value@));
        if contains(hay, needle) {
            return Some(value);
        }
        assert(all.skip(i as int).drop_first() =~= all.skip(i + 1));
        i = i + 1;
    }
    None
}

fn lookup(table: &Vec<(&'static str, &'static str)>, name: &str, body: &str) -> (r: Option<
    &'static str,
>)
    ensures
        match r {
            Some(v) => looked_up(systems::pair_texts(table@), name@, body@) == Some(v@),
            None => looked_up(systems::pair_texts(table@), name@, body@) is None,
        },
{
    match find_hit(table, name) {
        Some(v) => Some(v),
        None => find_hit(table, body),
    }
}

// ---------------------------------------------------------------------------
// Titles
// ---------------------------------------------------------------------------

/// A file name up to its last dot.
pub open spec fn before_last_dot(name: Seq<char>) -> Seq<char>
    decreases name.len(),
{
    if !name.contains('.') {
        name
    } else if name.last() == '.' {
        name.drop_last()
    } else {
        before_last_dot(name.drop_last())
    }
}

/// Underscores and dots made blanks.
pub open spec fn blanked(s: Seq<char>) -> Seq<char> {
    Seq::new(
        s.len(),
        |i: int|
            if s[i] == '_' || s[i] == '.' {
                ' '
            } else {
                s[i]
            },
    )
}

/// A file name as a readable title. Hyphens break it only where they separate
/// words, not inside hyphenated words.
pub open spec fn readable(name: Seq<char>) -> Seq<char> {
    text::collapsed(text::replaced(blanked(before_last_dot(name)), " - "@, " — "@))
}

fn last_dot(s: &[char]) -> (r: usize)
    ensures
        r <= s@.len(),
        before_last_dot(s@) == s@.take(r as int),
{
    let mut n: usize = s.len();
    while n > 0
        invariant
            n <= s@.len(),
            forall|j: int| n <= j < s@.len() ==> s@[j] != '.',
        decreases n,
    {
        if s[n - 1] == '.' {
            proof {
                lemma_last_dot(s@, n - 1);
            }
            return n - 1;
        }
        n = n - 1;
    }
    assert(s@.take(s@.len() as int) =~= s@);
    s.len()
}

proof fn lemma_last_dot(s: Seq<char>, n: int)
    requires
        0 <= n < s.len(),
        s[n] == '.',
        forall|j: int| n < j < s.len() ==> s[j] != '.',
    ensures
        before_last_dot(s) == s.take(n),
    decreases s.len(),
{
    assert(s.contains('.')) by {
        assert(s[n] == '.');
    }
    if n == s.len() - 1 {
        assert(s.drop_last() =~= s.take(n));
    } else {
        lemma_last_dot(s.drop_last(), n);
        assert(s.drop_last().take(n) =~= s.take(n));
    }
}

/// Turn a file name into a readable title.
pub fn title_from_filename(name: &str) -> (r: String)
    ensures
        r@ == readable(name@),
{
    let cs = chars_of(name);
    let n: usize = last_dot(cs.as_slice());
    let mut cleaned: Vec<char> = Vec::new();
    let ghost stem = before_last_dot(name@);
    let mut i: usize = 0;
    while i < n
        invariant
            n <= cs@.len(),
            stem == cs@.take(n as int),
            i <= n,
            cleaned@ =~= blanked(stem).take(i as int),
        decreases n - i,
    {
        let c = cs[i];
        assert(stem[i as int] == c);
        if c == '_' || c == '.' {
            cleaned.push(' ');
        } else {
            cleaned.push(c);
        }
        i = i + 1;
    }
    assert(blanked(stem).take(n as int) =~= blanked(stem));
    let from = chars_of(" - ");
    let to = chars_of(" — ");
    proof {
        reveal_strlit(" - ");
    }
    let dashed = replace_chars(cleaned.as_slice(), from.as_slice(), to.as_slice());
    let tidy = collapse(dashed.as_slice());
    text_of(tidy.as_slice())
}

/// What authoring tools leave where a title should be.
pub open spec fn junk() -> Seq<Seq<char>> {
    seq![
        "untitled"@,
        "microsoft word"@,
        "document1"@,
        ".indd"@,
        ".qxd"@,
        ".pdf"@,
        "layout"@,
    ]
}

pub open spec fn holds_junk(lower: Seq<char>) -> bool {
    exists|i: int| 0 <= i < junk().len() && text::contains_text(lower, #[trigger] junk()[i])
}

/// Whether a title whose lower-case form is `lower` looks like prose, not a
/// tool artifact.
pub open spec fn is_usable_title(t: Seq<char>, lower: Seq<char>) -> bool {
    &&& 4 <= text::byte_len(t) <= 120
    &&& !holds_junk(lower)
    &&& exists|i: int| 0 <= i < t.len() && text::alphabetic_char(#[trigger] t[i])
}

/// Whether a trimmed title looks like prose, given its lower-case form.
pub fn looks_like_prose(t: &str, lower: &str) -> (r: bool)
    ensures
        r == is_usable_title(t@, lower@),
        r ==> 4 <= text::byte_len(t@) <= 120,
        r ==> !text::contains_text(lower@, "untitled"@) && !text::contains_text(
            lower@,
            "microsoft word"@,
        ) && !text::contains_text(lower@, "document1"@) && !text::contains_text(lower@, ".indd"@)
            && !text::contains_text(lower@, ".qxd"@) && !text::contains_text(lower@, ".pdf"@)
            && !text::contains_text(lower@, "layout"@),
        r ==> exists|i: int| 0 <= i < t@.len() && text::alphabetic_char(#[trigger] t@[i]),
        !r ==> text::byte_len(t@) < 4 || text::byte_len(t@) > 120 || (exists|i: int|
            0 <= i < junk().len() && text::contains_text(lower@, #[trigger] junk()[i]))
            || forall|i: int| 0 <= i < t@.len() ==> !text::alphabetic_char(#[trigger] t@[i]),
{
    let cs = chars_of(t);
    let n: u128 = utf8_len(cs.as_slice());
    if n < 4 || n > 120 {
        return false;
    }
    let words: Vec<&'static str> = vec![
        "untitled",
        "microsoft word",
        "document1",
        ".indd",
        ".qxd",
        ".pdf",
        "layout",
    ];
    let mut k: usize = 0;
    while k < words.len()
        invariant
            words@.len() == 7,
            junk().len() == 7,
            forall|j: int| 0 <= j < 7 ==> (#[trigger] words@[j])@ == junk()[j],
            k <= 7,
            forall|j: int| 0 <= j < k ==> !text::contains_text(lower@, #[trigger] junk()[j]),
        decreases 7 - k,
    {
        assert(words@[k as int]@ == junk()[k as int]);
        if contains(lower, words[k]) {
            assert(holds_junk(lower@));
            return false;
        }
        k = k + 1;
    }
    assert(!holds_junk(lower@));
    let mut i: usize = 0;
    while i < cs.len()
        invariant
            cs@ == t@,
            i <= cs@.len(),
            !holds_junk(lower@),
            4 <= text::byte_len(t@) <= 120,
            forall|j: int| 0 <= j < i ==> !text::alphabetic_char(#[trigger] cs@[j]),
        decreases cs@.len() - i,
    {
        if alphabetic(cs[i]) {
            assert(text::alphabetic_char(t@[i as int]));
            proof {
                let list = junk();
                assert forall|j: int| 0 <= j < list.len() implies !text::contains_text(
                    lower@,
                    #[trigger] list[j],
                ) by {
                    assert(list[j] == junk()[j]);
                }
                assert(list[0] == "untitled"@ && list[1] == "microsoft word"@ && list[2]
                    == "document1"@ && list[3] == ".indd"@ && list[4] == ".qxd"@ && list[5]
                    == ".pdf"@ && list[6] == "layout"@);
            }
            return true;
        }
        i = i + 1;
    }
    false
}

/// An embedded title is trusted only if it looks like prose, not a tool artifact.
pub fn usable_pdf_title(title: &str) -> (r: bool)
    ensures
        r == is_usable_title(text::trim(title@), text::lowered(text::trim(title@))),
{
    let t = trim_text(title);
    let lower = lowercase(t.as_str());
    looks_like_prose(t.as_str(), lower.as_str())
}

/// The title of a document: the embedded one if it is usable, else its file name.
pub open spec fn chosen_title(embedded: Option<Seq<char>>, file_name: Seq<char>) -> Seq<char> {
    match embedded {
        Some(t) => if is_usable_title(text::trim(t), text::lowered(text::trim(t))) {
            text::trim(t)
        } else {
            readable(file_name)
        },
        None => readable(file_name),
    }
}

fn title_of(probe: &Probe) -> (r: String)
    ensures
        r@ == chosen_title(probe@.pdf_title, probe@.file_name),
{
    if let Some(t) = &probe.pdf_title {
        if usable_pdf_title(t.as_str()) {
            return trim_text(t.as_str());
        }
    }
    title_from_filename(probe.file_name.as_str())
}

// ---------------------------------------------------------------------------
// Describing a document
// ---------------------------------------------------------------------------

/// What a phrase about character levels looks like; the two numbers are
/// captured.
pub const LEVELS: &'static str =
    "(?i)levels?\\s+(\\d{1,2})\\s*(?:-|–|to|through)\\s*(\\d{1,2})";

pub open spec fn pair_view(p: Option<(String, String)>) -> Option<(Seq<char>, Seq<char>)> {
    match p {
        Some((a, b)) => Some((a@, b@)),
        None => None,
    }
}

/// The first two groups that a pattern captures at its first match in a text.
pub uninterp spec fn captured(pattern: Seq<char>, text: Seq<char>) -> Option<
    (Seq<char>, Seq<char>),
>;

/// `Regex::captures` of the `regex` crate, on the regex that `Regex::new` makes
/// of a pattern: groups one and two of the leftmost match, if there is a match
/// in which both take part. Nothing is said of which texts match, nor of
/// what a pattern that is no regex gives beyond its being always the same.
#[verifier::external_body]
fn capture_pair(pattern: &str, text: &str) -> (r: Option<(String, String)>)
    ensures
        pair_view(r) == captured(pattern@, text@),
{
    let found = Regex::new(pattern).ok()?.captures(text)?;
    Some((found.get(1)?.as_str().to_string(), found.get(2)?.as_str().to_string()))
}

pub open spec fn text_or(found: Option<Seq<char>>, otherwise: Seq<char>) -> Seq<char> {
    match found {
        Some(v) => v,
        None => otherwise,
    }
}

pub open spec fn one_if(b: bool) -> int {
    if b {
        1
    } else {
        0
    }
}

/// The publisher that a text names.
pub open spec fn named_publisher(hay: Seq<char>) -> Seq<char> {
    if text::contains_text(hay, "wizards of the coast"@) {
        "Wizards of the Coast"@
    } else if text::contains_text(hay, "paizo"@) {
        "Paizo"@
    } else if text::contains_text(hay, "dungeon masters guild"@) || text::contains_text(hay, "dmsguild"@) {
        "DMs Guild"@
    } else {
        "unknown"@
    }
}

/// A quarter: what the rules start from.
pub const QUARTER: u32 = 0x3e80_0000;

/// A tenth: what each signal adds, and the least that a scan leaves.
pub const TENTH: u32 = 0x3dcc_cccd;

/// A fifth: what a scan costs.
pub const FIFTH: u32 = 0x3e4c_cccd;

/// As sure as the rules ever get: 0.65.
pub const MOST: u32 = 0x3f26_6666;

/// How sure the rules are: four independent signals is as sure as they ever
/// get, below the model's ceiling, so a real digest outranks a heuristic one.
pub open spec fn rule_confidence(signals: int, scanned: bool) -> u32 {
    let base = float::sum(QUARTER, float::product(TENTH, float::of_whole(signals as nat)));
    let seen = if scanned {
        float::reduced(base, FIFTH, TENTH)
    } else {
        base
    };
    if seen > MOST {
        MOST
    } else {
        seen
    }
}

/// What the rules say of a document with a title, given its file name and text
/// in lower case and the level range found in it.
pub open spec fn ruled(
    title: Seq<char>,
    name: Seq<char>,
    body: Seq<char>,
    levels: Option<(Seq<char>, Seq<char>)>,
    scanned: bool,
) -> DigestFieldsView {
    let hay = name + " "@ + body;
    let system = looked_up(system_words(), name, body);
    let kind = looked_up(type_words(), name, body);
    let setting = first_hit(setting_words(), hay);
    let signals = one_if(system is Some) + one_if(kind is Some) + one_if(setting is Some) + one_if(
        levels is Some,
    );
    DigestFieldsView {
        title,
        game_system: text_or(system, "system neutral"@),
        doc_type: text_or(kind, "other"@),
        setting: text_or(setting, "unknown"@),
        level_range: match levels {
            Some((low, high)) => low + "-"@ + high,
            None => "unknown"@,
        },
        publisher: named_publisher(hay),
        topics: seq![],
        summary: ""@,
        confidence: rule_confidence(signals, scanned),
    }
}

fn publisher_in(hay: &str) -> (r: String)
    ensures
        r@ == named_publisher(hay@),
{
    if contains(hay, "wizards of the coast") {
        own("Wizards of the Coast")
    } else if contains(hay, "paizo") {
        own("Paizo")
    } else if contains(hay, "dungeon masters guild") || contains(hay, "dmsguild") {
        own("DMs Guild")
    } else {
        own("unknown")
    }
}

/// Apply the rules to a document with a title, given its file name and text in
/// lower case and the level range found in it.
pub fn describe(
    title: String,
    name: &str,
    body: &str,
    levels: Option<(String, String)>,
    scanned: bool,
) -> (r: DigestFields)
    ensures
        r@ == ruled(title@, name@, body@, pair_view(levels), scanned),
        goes_by_table(system_words(), name@, body@, "system neutral"@, r@.game_system),
        goes_by_table(type_words(), name@, body@, "other"@, r@.doc_type),
        goes_by_table(
            setting_words(),
            name@ + " "@ + body@,
            name@ + " "@ + body@,
            "unknown"@,
            r@.setting,
        ),
        r@.title == title@,
        r@.level_range == (match levels {
            Some((low, high)) => low@ + "-"@ + high@,
            None => "unknown"@,
        }),
        text::contains_text(name@ + " "@ + body@, "wizards of the coast"@) ==> r@.publisher
            == "Wizards of the Coast"@,
        !text::contains_text(name@ + " "@ + body@, "wizards of the coast"@) && text::contains_text(
            name@ + " "@ + body@,
            "paizo"@,
        ) ==> r@.publisher == "Paizo"@,
{
    proof {
        rules_go_by_the_tables(title@, name@, body@, pair_view(levels), scanned);
    }
    let mut hay = own(name);
    hay.append(" ");
    hay.append(body);
    let mut signals: u32 = 0;
    let game_system = match lookup(&system_table(), name, body) {
        Some(s) => {
            signals = signals + 1;
            own(s)
        },
        None => own("system neutral"),
    };
    let doc_type = match lookup(&type_table(), name, body) {
        Some(t) => {
            signals = signals + 1;
            own(t)
        },
        None => own("other"),
    };
    let setting = match find_hit(&setting_table(), hay.as_str()) {
        Some(s) => {
            signals = signals + 1;
            own(s)
        },
        None => own("unknown"),
    };
    let level_range = match &levels {
        Some((low, high)) => {
            signals = signals + 1;
            let mut range = low.clone();
            range.append("-");
            range.append(high.as_str());
            range
        },
        None => own("unknown"),
    };
    let publisher = publisher_in(hay.as_str());
    let mut confidence: u32 = plus(QUARTER, multiply(TENTH, from_whole(signals as u64)));
    if scanned {
        confidence = reduce(confidence, FIFTH, TENTH);
    }
    if confidence > MOST {
        confidence = MOST;
    }
    proof {
        reveal_strlit("");
    }
    let fields = DigestFields {
        title,
        game_system,
        doc_type,
        setting,
        level_range,
        publisher,
        topics: Vec::new(),
        summary: String::new(),
        confidence,
    };
    assert(text::texts(fields.topics@) =~= Seq::<Seq<char>>::empty());
    assert(fields.summary@ =~= ""@);
    fields
}

/// What the rules say of a document.
pub open spec fn rule_digest(p: ProbeView) -> DigestFieldsView {
    ruled(
        chosen_title(p.pdf_title, p.file_name),
        text::lowered(p.file_name),
        text::lowered(p.text),
        captured(LEVELS@, p.text),
        p.scanned,
    )
}

/// What a keyword table says of a document: the value of the earliest key in its
/// name; where its name holds none, that of the earliest key in its text; and
/// `otherwise` where there is none in either.
pub open spec fn goes_by_table(
    table: Seq<(Seq<char>, Seq<char>)>,
    name: Seq<char>,
    body: Seq<char>,
    otherwise: Seq<char>,
    value: Seq<char>,
) -> bool {
    &&& forall|i: int| #[trigger] is_earliest(table, name, i) ==> value == table[i].1
    &&& forall|i: int|
        is_silent(table, name) && #[trigger] is_earliest(table, body, i) ==> value == table[i].1
    &&& is_silent(table, name) && is_silent(table, body) ==> value == otherwise
}

/// The name of a document decides its system and its type before its text does,
/// and an earlier key of the table before a later one. The setting is looked for
/// in both alike.
pub proof fn rules_go_by_the_tables(
    title: Seq<char>,
    name: Seq<char>,
    body: Seq<char>,
    levels: Option<(Seq<char>, Seq<char>)>,
    scanned: bool,
)
    ensures
        ({
            let d = ruled(title, name, body, levels, scanned);
            let hay = name + " "@ + body;
            &&& goes_by_table(system_words(), name, body, "system neutral"@, d.game_system)
            &&& goes_by_table(type_words(), name, body, "other"@, d.doc_type)
            &&& goes_by_table(setting_words(), hay, hay, "unknown"@, d.setting)
        }),
{
    let hay = name + " "@ + body;
    let d = ruled(title, name, body, levels, scanned);
    lemma_goes_by_table(system_words(), name, body, "system neutral"@);
    lemma_goes_by_table(type_words(), name, body, "other"@);
    lemma_goes_by_table(setting_words(), hay, hay, "unknown"@);
}

proof fn lemma_goes_by_table(
    table: Seq<(Seq<char>, Seq<char>)>,
    name: Seq<char>,
    body: Seq<char>,
    otherwise: Seq<char>,
)
    ensures
        goes_by_table(table, name, body, otherwise, text_or(looked_up(table, name, body), otherwise)),
{
    let value = text_or(looked_up(table, name, body), otherwise);
    assert forall|i: int| #[trigger] is_earliest(table, name, i) implies value == table[i].1 by {
        lemma_earliest(table, name, i);
    }
    if is_silent(table, name) {
        lemma_silent(table, name);
        assert forall|i: int| #[trigger] is_earliest(table, body, i) implies value
            == table[i].1 by {
            lemma_earliest(table, body, i);
        }
        if is_silent(table, body) {
            lemma_silent(table, body);
        }
    }
}

/// A document whose file name holds a key is of the system, and of the type, that
/// its name gives, whatever its text says: two documents of one such name have
/// the same.
pub proof fn the_name_outranks_the_text(p: ProbeView, q: ProbeView, k: int)
    requires
        p.file_name == q.file_name,
    ensures
        0 <= k < system_words().len() && text::contains_text(
            text::lowered(p.file_name),
            system_words()[k].0,
        ) ==> rule_digest(p).game_system == rule_digest(q).game_system,
        0 <= k < type_words().len() && text::contains_text(
            text::lowered(p.file_name),
            type_words()[k].0,
        ) ==> rule_digest(p).doc_type == rule_digest(q).doc_type,
{
    let name = text::lowered(p.file_name);
    rules_go_by_the_tables(
        chosen_title(p.pdf_title, p.file_name),
        name,
        text::lowered(p.text),
        captured(LEVELS@, p.text),
        p.scanned,
    );
    rules_go_by_the_tables(
        chosen_title(q.pdf_title, q.file_name),
        name,
        text::lowered(q.text),
        captured(LEVELS@, q.text),
        q.scanned,
    );
    if 0 <= k < system_words().len() && text::contains_text(name, system_words()[k].0) {
        let i = some_key_is_earliest(system_words(), name, k);
        assert(is_earliest(system_words(), name, i));
    }
    if 0 <= k < type_words().len() && text::contains_text(name, type_words()[k].0) {
        let i = some_key_is_earliest(type_words(), name, k);
        assert(is_earliest(type_words(), name, i));
    }
}

/// What a pattern stands for, by its two parts, counted in some measure.
proof fn lemma_pattern(q: nat, r: nat, k: nat, e: nat, n: nat)
    requires
        q > 0,
        r < 0x80_0000,
        natural::two_to((q - 1) as nat) == k * e,
        n == (0x80_0000 + r) * k,
    ensures
        float::units(Format::Single, 0x80_0000 * q + r) == n * e,
{
    let b = 0x80_0000 * q + r;
    assert(b / 0x80_0000 == q && b % 0x80_0000 == r);
    assert((0x80_0000 + r) * (k * e) == ((0x80_0000 + r) * k) * e) by (nonlinear_arith);
}

/// What some numbers are in units, counted in a common measure.
proof fn lemma_rule_units(e: nat)
    requires
        e == natural::two_to(122),
    ensures
        float::units(Format::Single, TENTH as nat) == 0xcc_cccd * e,
        float::units(Format::Single, FIFTH as nat) == 0x199_999a * e,
        float::units(Format::Single, QUARTER as nat) == 0x200_0000 * e,
        float::units(Format::Single, 0x3f00_0000) == 0x400_0000 * e,
        float::units(Format::Single, 0x3f19_999a) == 0x4cc_ccd0 * e,
        float::units(Format::Single, 0x3f40_0000) == 0x600_0000 * e,
        natural::two_to(125) == 8 * e,
{
    assert(natural::two_to(123) == 2 * e);
    assert(natural::two_to(124) == 4 * e);
    assert(natural::two_to(125) == 8 * e);
    lemma_pattern(123, 0x4c_cccd, 1, e, 0xcc_cccd);
    lemma_pattern(124, 0x4c_cccd, 2, e, 0x199_999a);
    lemma_pattern(125, 0, 4, e, 0x200_0000);
    lemma_pattern(126, 0, 8, e, 0x400_0000);
    lemma_pattern(126, 0x19_999a, 8, e, 0x4cc_ccd0);
    lemma_pattern(126, 0x40_0000, 8, e, 0x600_0000);
}

proof fn lemma_four()
    ensures
        float::units(Format::Single, 0x4080_0000) == 4 * natural::two_to(149),
{
    natural::lemma_powers();
    natural::lemma_two_to_sum(23, 128);
    assert(natural::two_to(150) == 2 * natural::two_to(149));
    assert(natural::two_to(151) == 2 * natural::two_to(150));
    lemma_pattern(129, 0, 1, natural::two_to(128), 0x80_0000);
}

/// Before a scan is taken into account, the rules are between a quarter and three
/// quarters sure.
proof fn lemma_rule_base(signals: nat)
    requires
        signals <= 4,
    ensures
        QUARTER <= float::sum(QUARTER, float::product(TENTH, float::of_whole(signals)))
            <= 0x3f40_0000,
{
    let f = Format::Single;
    let c = natural::two_to(149);
    let e = natural::two_to(122);
    natural::lemma_two_to_sum(149, 0);
    natural::lemma_two_to_sum(149, 149);
    lemma_rule_units(e);
    lemma_four();
    let four = float::units(f, 0x4080_0000);
    assert(signals * c <= four * 1) by (nonlinear_arith)
        requires
            signals <= 4,
            four == 4 * c,
            c >= 0,
    ;
    float::rounding_stays_below(f, signals, 1, 0x4080_0000);
    let w = float::of_whole(signals);
    float::lemma_units_grow(f, w as nat, 0x4080_0000);
    let u = float::units(f, TENTH as nat);
    let v = float::units(f, w as nat);
    let half = float::units(f, 0x3f00_0000);
    let d = natural::two_to(298);
    assert((u * v) * c <= half * d) by (nonlinear_arith)
        requires
            4 * u <= half,
            v <= 4 * c,
            d == c * c,
            u >= 0,
            c >= 0,
            v >= 0,
    ;
    assert(d > 0) by (nonlinear_arith)
        requires
            d == c * c,
            c > 0,
    ;
    float::rounding_stays_below(f, u * v, d, 0x3f00_0000);
    let p = float::product(TENTH, w);
    assert(p <= 0x3f00_0000);
    float::lemma_units_grow(f, p as nat, 0x3f00_0000);
    let q = float::units(f, QUARTER as nat);
    let r = float::units(f, p as nat);
    let most = float::units(f, 0x3f40_0000);
    assert((q + r) * c <= most * c) by (nonlinear_arith)
        requires
            q + r <= most,
            c >= 0,
    ;
    assert(q * c <= (q + r) * c) by (nonlinear_arith)
        requires
            r >= 0,
            c >= 0,
    ;
    float::rounding_stays_below(f, q + r, c, 0x3f40_0000);
    float::rounding_stays_above(f, q + r, c, QUARTER as nat);
}

/// A step from one number to the next, for numbers below one.
proof fn lemma_small_step(b: nat)
    requires
        0x3e80_0000 <= b <= 0x3f40_0000,
    ensures
        float::units(Format::Single, b) <= float::units(Format::Single, (b - 1) as nat)
            + natural::two_to(125),
{
    let a = (b - 1) as nat;
    let q = a / 0x80_0000;
    let r = a % 0x80_0000;
    assert(124 <= q <= 126);
    natural::lemma_two_to_grows((q - 1) as nat, 125);
    let p = natural::two_to((q - 1) as nat);
    assert(natural::two_to(q) == 2 * p);
    if r + 1 < 0x80_0000 {
        assert(b / 0x80_0000 == q && b % 0x80_0000 == r + 1);
        assert((0x80_0000 + (r + 1)) * p == (0x80_0000 + r) * p + p) by (nonlinear_arith);
    } else {
        assert(b / 0x80_0000 == q + 1 && b % 0x80_0000 == 0);
        assert((0x80_0000 + 0) * (2 * p) == (0x80_0000 + r) * p + p) by (nonlinear_arith)
            requires
                r + 1 == 0x80_0000,
        ;
    }
}

/// A scan makes the rules less sure, whatever they were.
proof fn lemma_scans_cost(base: u32)
    requires
        QUARTER <= base <= 0x3f40_0000,
    ensures
        ({
            let seen = float::reduced(base, FIFTH, TENTH);
            seen < base && seen < MOST
        }),
{
    let f = Format::Single;
    let c = natural::two_to(149);
    let e = natural::two_to(122);
    natural::lemma_two_to_sum(149, 0);
    lemma_rule_units(e);
    lemma_small_step(base as nat);
    float::lemma_units_grow(f, FIFTH as nat, base as nat);
    float::lemma_units_grow(f, base as nat, 0x3f40_0000);
    let u = float::units(f, base as nat);
    let v = float::units(f, FIFTH as nat);
    let before = float::units(f, (base - 1) as nat);
    let most = float::units(f, 0x3f19_999a);
    let d = (u - v) as nat;
    assert(d * c <= before * c) by (nonlinear_arith)
        requires
            d <= before,
            c >= 0,
    ;
    assert(d * c <= most * c) by (nonlinear_arith)
        requires
            d <= most,
            c >= 0,
    ;
    float::rounding_stays_below(f, d, c, (base - 1) as nat);
    float::rounding_stays_below(f, d, c, 0x3f19_999a);
}

/// The rules are never as sure as a model can be, and a scanned document costs
/// them confidence.
pub proof fn rules_stay_below_a_model(
    title: Seq<char>,
    name: Seq<char>,
    body: Seq<char>,
    levels: Option<(Seq<char>, Seq<char>)>,
)
    ensures
        ruled(title, name, body, levels, false).confidence <= MOST,
        ruled(title, name, body, levels, true).confidence < ruled(
            title,
            name,
            body,
            levels,
            false,
        ).confidence,
{
    let hay = name + " "@ + body;
    let signals = one_if(looked_up(system_words(), name, body) is Some) + one_if(
        looked_up(type_words(), name, body) is Some,
    ) + one_if(first_hit(setting_words(), hay) is Some) + one_if(levels is Some);
    lemma_rule_base(signals as nat);
    lemma_scans_cost(
        float::sum(QUARTER, float::product(TENTH, float::of_whole(signals as nat))),
    );
}

/// How sure the rules are by a number of signals, between two numbers. `w` is the
/// number of signals; a tenth of it lies between `low` and `high`.
proof fn lemma_base_between(
    signals: nat,
    w: nat,
    low: nat,
    high: nat,
    least: nat,
    most: nat,
    a: nat,
    b: nat,
    c: nat,
    d: nat,
)
    requires
        w < 0x7f80_0000,
        low < 0x7f80_0000,
        high < 0x7f80_0000,
        least < 0x7f80_0000,
        most < 0x7f80_0000,
        float::units(Format::Single, w) == signals * natural::two_to(149),
        float::units(Format::Single, low) == a * natural::two_to(122),
        float::units(Format::Single, high) == b * natural::two_to(122),
        float::units(Format::Single, least) == c * natural::two_to(122),
        float::units(Format::Single, most) == d * natural::two_to(122),
        a <= 0xcc_cccd * signals <= b,
        c <= 0x200_0000 + a,
        0x200_0000 + b <= d,
    ensures
        least <= float::sum(QUARTER, float::product(TENTH, float::of_whole(signals))) <= most,
{
    let f = Format::Single;
    let one = natural::two_to(149);
    let e = natural::two_to(122);
    let all = natural::two_to(298);
    natural::lemma_two_to_sum(149, 149);
    natural::lemma_two_to_sum(149, 0);
    natural::lemma_two_to_sum(122, 0);
    lemma_rule_units(e);
    float::rounding_stays_below(f, signals, 1, w);
    float::rounding_stays_above(f, signals, 1, w);
    assert(float::of_whole(signals) == w);
    let u = float::units(f, TENTH as nat);
    let v = float::units(f, w);
    assert(u * v == (0xcc_cccd * signals) * e * one) by (nonlinear_arith)
        requires
            u == 0xcc_cccd * e,
            v == signals * one,
    ;
    let t = 0xcc_cccd * signals;
    assert(all > 0) by (nonlinear_arith)
        requires
            all == one * one,
            one > 0,
    ;
    assert((u * v) * one <= (b * e) * all) by (nonlinear_arith)
        requires
            u * v == t * e * one,
            all == one * one,
            t <= b,
            e >= 0,
            one >= 0,
    ;
    assert((a * e) * all <= (u * v) * one) by (nonlinear_arith)
        requires
            u * v == t * e * one,
            all == one * one,
            a <= t,
            e >= 0,
            one >= 0,
    ;
    float::rounding_stays_below(f, u * v, all, high);
    float::rounding_stays_above(f, u * v, all, low);
    let p = float::product(TENTH, w as u32);
    assert(low <= p <= high);
    float::lemma_units_grow(f, low, p as nat);
    float::lemma_units_grow(f, p as nat, high);
    let q = float::units(f, QUARTER as nat);
    let r = float::units(f, p as nat);
    assert(q == 0x200_0000 * e);
    assert((q + r) * one <= (d * e) * one) by (nonlinear_arith)
        requires
            q == 0x200_0000 * e,
            r <= b * e,
            0x200_0000 + b <= d,
            e >= 0,
            one >= 0,
    ;
    assert((c * e) * one <= (q + r) * one) by (nonlinear_arith)
        requires
            q == 0x200_0000 * e,
            r >= a * e,
            c <= 0x200_0000 + a,
            e >= 0,
            one >= 0,
    ;
    float::rounding_stays_below(f, q + r, one, most);
    float::rounding_stays_above(f, q + r, one, least);
}

/// Each signal makes the rules surer.
proof fn lemma_signals_add(signals: nat)
    requires
        signals < 4,
    ensures
        rule_confidence(signals as int, false) < rule_confidence((signals + 1) as int, false),
{
    let e = natural::two_to(122);
    lemma_rule_units(e);
    lemma_four();
    natural::lemma_powers();
    natural::lemma_two_to_sum(23, 126);
    let g = natural::two_to(126);
    assert(natural::two_to(127) == 2 * g);
    assert(natural::two_to(149) == 0x80_0000 * g);
    lemma_pattern(127, 0, 1, g, 0x80_0000);
    lemma_pattern(128, 0, 2, g, 0x100_0000);
    lemma_pattern(128, 0x40_0000, 2, g, 0x180_0000);
    assert(float::units(Format::Single, 0) == 0);
    lemma_pattern(123, 0x40_0000, 1, e, 0xc0_0000);
    lemma_pattern(123, 0x60_0000, 1, e, 0xe0_0000);
    lemma_pattern(124, 0x40_0000, 2, e, 0x180_0000);
    lemma_pattern(124, 0x60_0000, 2, e, 0x1c0_0000);
    lemma_pattern(125, 0x10_0000, 4, e, 0x240_0000);
    lemma_pattern(125, 0x20_0000, 4, e, 0x280_0000);
    lemma_pattern(125, 0x40_0000, 4, e, 0x300_0000);
    lemma_pattern(125, 0x60_0000, 4, e, 0x380_0000);
    lemma_pattern(125, 0x30_0000, 4, e, 0x2c0_0000);
    lemma_pattern(125, 0x38_0000, 4, e, 0x2e0_0000);
    lemma_pattern(125, 0x70_0000, 4, e, 0x3c0_0000);
    lemma_pattern(126, 0x08_0000, 8, e, 0x440_0000);
    lemma_pattern(126, 0x10_0000, 8, e, 0x480_0000);
    lemma_pattern(126, 0x20_0000, 8, e, 0x500_0000);
    lemma_pattern(126, 0x30_0000, 8, e, 0x580_0000);
    lemma_base_between(0, 0, 0, 0, 0x3e80_0000, 0x3e80_0000, 0, 0, 0x200_0000, 0x200_0000);
    lemma_base_between(
        1,
        0x3f80_0000,
        0x3dc0_0000,
        0x3de0_0000,
        0x3eb0_0000,
        0x3eb8_0000,
        0xc0_0000,
        0xe0_0000,
        0x2c0_0000,
        0x2e0_0000,
    );
    lemma_base_between(
        2,
        0x4000_0000,
        0x3e40_0000,
        0x3e60_0000,
        0x3ee0_0000,
        0x3ef0_0000,
        0x180_0000,
        0x1c0_0000,
        0x380_0000,
        0x3c0_0000,
    );
    lemma_base_between(
        3,
        0x4040_0000,
        0x3e90_0000,
        0x3ea0_0000,
        0x3f08_0000,
        0x3f10_0000,
        0x240_0000,
        0x280_0000,
        0x440_0000,
        0x480_0000,
    );
    lemma_base_between(
        4,
        0x4080_0000,
        0x3ec0_0000,
        0x3ee0_0000,
        0x3f20_0000,
        0x3f30_0000,
        0x300_0000,
        0x380_0000,
        0x500_0000,
        0x580_0000,
    );
}

/// A range of levels found in a document makes the rules surer, and so does a
/// system, a type or a setting that its name or its text gives away.
pub proof fn findings_make_the_rules_surer(
    title: Seq<char>,
    name: Seq<char>,
    body: Seq<char>,
    levels: (Seq<char>, Seq<char>),
    other_name: Seq<char>,
    other_body: Seq<char>,
)
    ensures
        ruled(title, name, body, None, false).confidence < ruled(
            title,
            name,
            body,
            Some(levels),
            false,
        ).confidence,
        is_silent(system_words(), name) && is_silent(system_words(), body) && is_silent(
            type_words(),
            name,
        ) && is_silent(type_words(), body) && is_silent(setting_words(), name + " "@ + body)
            && !(is_silent(system_words(), other_name) && is_silent(type_words(), other_name)) ==> ruled(
            title,
            name,
            body,
            None,
            false,
        ).confidence < ruled(title, other_name, other_body, None, false).confidence,
{
    let hay = name + " "@ + body;
    let other_hay = other_name + " "@ + other_body;
    let found = one_if(looked_up(system_words(), name, body) is Some) + one_if(
        looked_up(type_words(), name, body) is Some,
    ) + one_if(first_hit(setting_words(), hay) is Some);
    lemma_signals_add(found as nat);
    if is_silent(system_words(), name) && is_silent(system_words(), body) && is_silent(
        type_words(),
        name,
    ) && is_silent(type_words(), body) && is_silent(setting_words(), hay) {
        lemma_silent(system_words(), name);
        lemma_silent(system_words(), body);
        lemma_silent(type_words(), name);
        lemma_silent(type_words(), body);
        lemma_silent(setting_words(), hay);
        let more = one_if(looked_up(system_words(), other_name, other_body) is Some) + one_if(
            looked_up(type_words(), other_name, other_body) is Some,
        ) + one_if(first_hit(setting_words(), other_hay) is Some);
        if !is_silent(system_words(), other_name) {
            let k = choose|k: int|
                0 <= k < system_words().len() && text::contains_text(
                    other_name,
                    (#[trigger] system_words()[k]).0,
                );
            let i = some_key_is_earliest(system_words(), other_name, k);
            lemma_earliest(system_words(), other_name, i);
        }
        if !is_silent(type_words(), other_name) {
            let k = choose|k: int|
                0 <= k < type_words().len() && text::contains_text(
                    other_name,
                    (#[trigger] type_words()[k]).0,
                );
            let i = some_key_is_earliest(type_words(), other_name, k);
            lemma_earliest(type_words(), other_name, i);
        }
        lemma_signals_add(0);
        lemma_signals_add(1);
        lemma_signals_add(2);
    }
}

// ---------------------------------------------------------------------------
// Designing a taxonomy
// ---------------------------------------------------------------------------

/// A word with its first character in upper case.
pub open spec fn capital(word: Seq<char>) -> Seq<char> {
    if word.len() == 0 {
        word
    } else {
        text::uppered(seq![word[0]]) + word.skip(1)
    }
}

pub open spec fn capitals(list: Seq<Seq<char>>) -> Seq<Seq<char>> {
    Seq::new(list.len(), |i: int| capital(list[i]))
}

/// A phrase with a capital at the start of each word.
pub open spec fn title_cased(s: Seq<char>) -> Seq<char> {
    text::joined(capitals(text::words(s)), " "@)
}

fn capitalise(word: &Vec<char>) -> (r: Vec<char>)
    ensures
        r@ == capital(word@),
{
    if word.len() == 0 {
        return Vec::new();
    }
    let first = copy_range(word.as_slice(), 0, 1);
    assert(first@ =~= seq![word@[0]]);
    let mut out = chars_of(uppercase(text_of(first.as_slice()).as_str()).as_str());
    let rest = copy_range(word.as_slice(), 1, word.len());
    assert(rest@ =~= word@.skip(1));
    append_chars(&mut out, rest.as_slice());
    out
}

pub fn title_case(s: &str) -> (r: String)
    ensures
        r@ == title_cased(s@),
{
    let cs = chars_of(s);
    let list = word_list(cs.as_slice());
    let ghost all = text::char_lists(list@);
    let mut out: Vec<Vec<char>> = Vec::new();
    let mut i: usize = 0;
    while i < list.len()
        invariant
            all == text::char_lists(list@),
            i <= list@.len(),
            text::char_lists(out@) =~= capitals(all).take(i as int),
        decreases list@.len() - i,
    {
        let word = capitalise(&list[i]);
        let ghost before = out@;
        out.push(word);
        proof {
            assert(text::char_lists(out@) =~= text::char_lists(before).push(word@));
        }
        i = i + 1;
    }
    assert(capitals(all).take(i as int) =~= capitals(all));
    let sep = chars_of(" ");
    text_of(join_chars(&out, sep.as_slice()).as_slice())
}

/// The folder of a system and a document type.
pub open spec fn pair_leaf(pair: (Seq<char>, Seq<char>)) -> Seq<char> {
    pair.0 + "/"@ + title_cased(pair.1)
}

/// A system's folder for whatever is too thin for one of its own.
pub open spec fn other_leaf(system: Seq<char>) -> Seq<char> {
    system + "/Other"@
}

pub open spec fn pair_of(d: DigestView) -> (Seq<char>, Seq<char>) {
    (d.game_system, d.doc_type)
}

/// How many documents have a system and a type.
pub open spec fn tally(corpus: Seq<DigestView>, pair: (Seq<char>, Seq<char>)) -> nat
    decreases corpus.len(),
{
    if corpus.len() == 0 {
        0
    } else {
        tally(corpus.drop_last(), pair) + one_if(pair_of(corpus.last()) == pair) as nat
    }
}

/// Whether the document at `n` is the first with its system and type.
pub open spec fn is_first_of_pair(corpus: Seq<DigestView>, n: int) -> bool {
    forall|j: int| 0 <= j < n ==> pair_of(#[trigger] corpus[j]) != pair_of(corpus[n])
}

/// The folders that the pairs of the first `n` documents earn: one for each
/// pair that at least `least` documents of the whole collection share.
pub open spec fn earned_leaves(corpus: Seq<DigestView>, n: int, least: nat) -> Seq<Seq<char>>
    decreases n,
{
    if n <= 0 {
        seq![]
    } else {
        let before = earned_leaves(corpus, n - 1, least);
        let pair = pair_of(corpus[n - 1]);
        if is_first_of_pair(corpus, n - 1) && tally(corpus, pair) >= least {
            before.push(pair_leaf(pair))
        } else {
            before
        }
    }
}

/// Those folders, and one for the rest of every system among the first `n`
/// documents that has none yet.
pub open spec fn with_others(
    leaves: Seq<Seq<char>>,
    corpus: Seq<DigestView>,
    n: int,
) -> Seq<Seq<char>>
    decreases n,
{
    if n <= 0 {
        leaves
    } else {
        let before = with_others(leaves, corpus, n - 1);
        let other = other_leaf(corpus[n - 1].game_system);
        if before.contains(other) {
            before
        } else {
            before.push(other)
        }
    }
}

pub open spec fn first_few(list: Seq<Seq<char>>, limit: nat) -> Seq<Seq<char>> {
    if list.len() <= limit {
        list
    } else {
        list.take(limit as int)
    }
}

/// The folders that observed systems and types call for, sorted, up to a limit.
pub open spec fn rule_leaves(
    corpus: Seq<DigestView>,
    least: nat,
    limit: nat,
) -> Seq<Seq<char>> {
    let n = corpus.len() as int;
    first_few(order::sorted_texts(with_others(earned_leaves(corpus, n, least), corpus, n)), limit)
}

fn tally_of(corpus: &Vec<Digest>, n: usize) -> (r: usize)
    requires
        n < corpus@.len(),
    ensures
        r == tally(types::digest_views(corpus@), pair_of(corpus@[n as int]@)),
{
    let ghost all = types::digest_views(corpus@);
    let ghost pair = pair_of(corpus@[n as int]@);
    let mut count: usize = 0;
    let mut i: usize = 0;
    assert(all.take(0) =~= Seq::<DigestView>::empty());
    while i < corpus.len()
        invariant
            all == types::digest_views(corpus@),
            n < corpus@.len(),
            pair == pair_of(corpus@[n as int]@),
            i <= corpus@.len(),
            count <= i,
            count == tally(all.take(i as int), pair),
        decreases corpus@.len() - i,
    {
        assert(all.take(i + 1).drop_last() =~= all.take(i as int));
        assert(all.take(i + 1).last() == corpus@[i as int]@);
        if same_pair(&corpus[i], &corpus[n]) {
            count = count + 1;
        }
        i = i + 1;
    }
    assert(all.take(i as int) =~= all);
    count
}

fn same_pair(a: &Digest, b: &Digest) -> (r: bool)
    ensures
        r == (pair_of(a@) == pair_of(b@)),
{
    same(a.game_system.as_str(), b.game_system.as_str()) && same(
        a.doc_type.as_str(),
        b.doc_type.as_str(),
    )
}

fn first_of_pair(corpus: &Vec<Digest>, n: usize) -> (r: bool)
    requires
        n < corpus@.len(),
    ensures
        r == is_first_of_pair(types::digest_views(corpus@), n as int),
{
    let ghost all = types::digest_views(corpus@);
    let mut j: usize = 0;
    while j < n
        invariant
            all == types::digest_views(corpus@),
            j <= n < corpus@.len(),
            forall|k: int| 0 <= k < j ==> pair_of(#[trigger] all[k]) != pair_of(all[n as int]),
        decreases n - j,
    {
        if same_pair(&corpus[j], &corpus[n]) {
            assert(pair_of(all[j as int]) == pair_of(all[n as int]));
            return false;
        }
        j = j + 1;
    }
    true
}

fn leaf_of(system: &str, doc_type: &str) -> (r: String)
    ensures
        r@ == pair_leaf((system@, doc_type@)),
{
    let mut leaf = own(system);
    leaf.append("/");
    leaf.append(title_case(doc_type).as_str());
    leaf
}

fn other_of(system: &str) -> (r: String)
    ensures
        r@ == other_leaf(system@),
{
    let mut leaf = own(system);
    leaf.append("/Other");
    leaf
}

/// The folders for a collection: one for each system and type that enough
/// documents share, and one for the rest of each system.
pub fn leaves_for(corpus: &Vec<Digest>, cfg: &TaxonomyConfig) -> (r: Vec<String>)
    ensures
        text::texts(r@) == rule_leaves(
            types::digest_views(corpus@),
            cfg.min_docs_per_leaf as nat,
            cfg.max_leaves as nat,
        ),
{
    let ghost all = types::digest_views(corpus@);
    let ghost least = cfg.min_docs_per_leaf as nat;
    let mut leaves: Vec<String> = Vec::new();
    let mut i: usize = 0;
    assert(text::texts(leaves@) =~= Seq::<Seq<char>>::empty());
    while i < corpus.len()
        invariant
            all == types::digest_views(corpus@),
            least == cfg.min_docs_per_leaf as nat,
            i <= corpus@.len(),
            text::texts(leaves@) == earned_leaves(all, i as int, least),
        decreases corpus@.len() - i,
    {
        let d = &corpus[i];
        assert(all[i as int] == d@);
        if first_of_pair(corpus, i) && tally_of(corpus, i) >= cfg.min_docs_per_leaf {
            let ghost before = leaves@;
            let leaf = leaf_of(d.game_system.as_str(), d.doc_type.as_str());
            leaves.push(leaf);
            assert(text::texts(leaves@) =~= text::texts(before).push(leaf@));
        }
        i = i + 1;
    }
    let ghost earned = text::texts(leaves@);
    let mut k: usize = 0;
    while k < corpus.len()
        invariant
            all == types::digest_views(corpus@),
            k <= corpus@.len(),
            text::texts(leaves@) == with_others(earned, all, k as int),
        decreases corpus@.len() - k,
    {
        let other = other_of(corpus[k].game_system.as_str());
        assert(all[k as int] == corpus@[k as int]@);
        if !holds_text(leaves.as_slice(), other.as_str()) {
            let ghost before = leaves@;
            leaves.push(other);
            assert(text::texts(leaves@) =~= text::texts(before).push(other@));
        }
        k = k + 1;
    }
    let mut sorted = sort_texts(leaves);
    let ghost full = sorted@;
    if sorted.len() > cfg.max_leaves {
        sorted.truncate(cfg.max_leaves);
        assert(text::texts(sorted@) =~= text::texts(full).take(cfg.max_leaves as int));
    }
    sorted
}

/// The documents of a system and a type, by their positions.
pub open spec fn alike(corpus: Seq<DigestView>, system: Seq<char>, kind: Seq<char>) -> Set<int> {
    Set::new(
        |i: int|
            0 <= i < corpus.len() && corpus[i].game_system == system && corpus[i].doc_type == kind,
    )
}

proof fn lemma_alike(corpus: Seq<DigestView>, system: Seq<char>, kind: Seq<char>)
    ensures
        alike(corpus, system, kind).finite(),
        alike(corpus, system, kind).len() == tally(corpus, (system, kind)),
    decreases corpus.len(),
{
    if corpus.len() == 0 {
        assert(alike(corpus, system, kind) =~= Set::empty());
    } else {
        let front = corpus.drop_last();
        lemma_alike(front, system, kind);
        let last = corpus.last();
        if last.game_system == system && last.doc_type == kind {
            assert(alike(corpus, system, kind) =~= alike(front, system, kind).insert(
                corpus.len() - 1,
            ));
        } else {
            assert(alike(corpus, system, kind) =~= alike(front, system, kind));
        }
    }
}

proof fn lemma_leaf_pushed(list: Seq<Seq<char>>, y: Seq<char>, x: Seq<char>)
    ensures
        list.push(y).contains(x) <==> list.contains(x) || x == y,
{
    let all = list.push(y);
    assert(all[list.len() as int] == y);
    if list.contains(x) {
        let i = choose|i: int| 0 <= i < list.len() && list[i] == x;
        assert(all[i] == x);
    }
    if all.contains(x) {
        let i = choose|i: int| 0 <= i < all.len() && all[i] == x;
        if i < list.len() {
            assert(list[i] == x);
        }
    }
}

/// Whether a folder is that of a system and a type which enough documents share.
pub open spec fn is_earned(corpus: Seq<DigestView>, least: nat, leaf: Seq<char>, i: int) -> bool {
    &&& 0 <= i < corpus.len()
    &&& leaf == corpus[i].game_system + "/"@ + title_cased(corpus[i].doc_type)
    &&& alike(corpus, corpus[i].game_system, corpus[i].doc_type).len() >= least
}

proof fn lemma_earned(corpus: Seq<DigestView>, n: int, least: nat, leaf: Seq<char>)
    requires
        0 <= n <= corpus.len(),
    ensures
        earned_leaves(corpus, n, least).contains(leaf) <==> exists|i: int|
            i < n && #[trigger] is_earned(corpus, least, leaf, i),
    decreases n,
{
    if n > 0 {
        let before = earned_leaves(corpus, n - 1, least);
        let d = corpus[n - 1];
        let pair = pair_of(d);
        lemma_earned(corpus, n - 1, least, leaf);
        lemma_alike(corpus, d.game_system, d.doc_type);
        lemma_leaf_pushed(before, pair_leaf(pair), leaf);
        if is_earned(corpus, least, leaf, n - 1) && !is_first_of_pair(corpus, n - 1) {
            let j = choose|j: int| 0 <= j < n - 1 && pair_of(#[trigger] corpus[j]) == pair;
            assert(is_earned(corpus, least, leaf, j));
        }
        if earned_leaves(corpus, n, least).contains(leaf) && !before.contains(leaf) {
            assert(is_earned(corpus, least, leaf, n - 1));
        }
    }
}

proof fn lemma_others(leaves: Seq<Seq<char>>, corpus: Seq<DigestView>, n: int, leaf: Seq<char>)
    requires
        0 <= n <= corpus.len(),
    ensures
        with_others(leaves, corpus, n).contains(leaf) <==> leaves.contains(leaf) || exists|i: int|
            0 <= i < n && (#[trigger] corpus[i]).game_system + "/Other"@ == leaf,
    decreases n,
{
    if n > 0 {
        let before = with_others(leaves, corpus, n - 1);
        let other = other_leaf(corpus[n - 1].game_system);
        lemma_others(leaves, corpus, n - 1, leaf);
        lemma_leaf_pushed(before, other, leaf);
        if with_others(leaves, corpus, n).contains(leaf) && !before.contains(leaf) {
            assert(corpus[n - 1].game_system + "/Other"@ == leaf);
        }
    }
}

/// The folders of a collection are one for each system and type that enough
/// documents share, and one for the rest of each system; no others, and as many of
/// them as the limit allows.
pub proof fn folders_are_earned(
    corpus: Seq<DigestView>,
    least: nat,
    limit: nat,
    leaf: Seq<char>,
)
    ensures
        rule_leaves(corpus, least, limit).len() <= limit,
        rule_leaves(corpus, least, limit).contains(leaf) ==> (exists|i: int| #[trigger]
            is_earned(corpus, least, leaf, i)) || (exists|i: int|
            0 <= i < corpus.len() && (#[trigger] corpus[i]).game_system + "/Other"@ == leaf),
        rule_leaves(corpus, least, limit).len() < limit && ((exists|i: int| #[trigger]
            is_earned(corpus, least, leaf, i)) || (exists|i: int|
            0 <= i < corpus.len() && (#[trigger] corpus[i]).game_system + "/Other"@ == leaf))
            ==> rule_leaves(corpus, least, limit).contains(leaf),
{
    let n = corpus.len() as int;
    let earned = earned_leaves(corpus, n, least);
    let all = with_others(earned, corpus, n);
    let sorted = order::sorted_texts(all);
    let r = rule_leaves(corpus, least, limit);
    lemma_earned(corpus, n, least, leaf);
    lemma_others(earned, corpus, n, leaf);
    order::sorting_keeps_every_item(all, order::text_keys(all), leaf);
    if r.contains(leaf) {
        let i = choose|i: int| 0 <= i < r.len() && r[i] == leaf;
        assert(sorted[i] == leaf);
    }
    if exists|i: int| #[trigger] is_earned(corpus, least, leaf, i) {
        let i = choose|i: int| #[trigger] is_earned(corpus, least, leaf, i);
        assert(i < n && is_earned(corpus, least, leaf, i));
        assert(earned.contains(leaf));
    }
}

// ---------------------------------------------------------------------------
// Filing
// ---------------------------------------------------------------------------

/// Slashes made blanks.
pub open spec fn unslashed(s: Seq<char>) -> Seq<char> {
    Seq::new(
        s.len(),
        |i: int|
            if s[i] == '/' {
                ' '
            } else {
                s[i]
            },
    )
}

/// How many of the words, leaving out the shortest, occur in a text whose
/// lower-case form is `hay`.
pub open spec fn shared_words(list: Seq<Seq<char>>, hay: Seq<char>) -> nat
    decreases list.len(),
{
    if list.len() == 0 {
        0
    } else {
        let word = list.last();
        shared_words(list.drop_last(), hay) + one_if(
            text::byte_len(word) > 3 && text::contains_text(hay, text::lowered(word)),
        ) as nat
    }
}

/// What a folder's words are looked for in.
pub open spec fn subject(d: DigestView) -> Seq<char> {
    text::lowered(d.game_system + " "@ + d.doc_type + " "@ + d.title)
}

/// How much a folder's path has in common with a document.
pub open spec fn common(leaf: Seq<char>, d: DigestView) -> nat {
    shared_words(text::words(unslashed(leaf)), subject(d))
}

pub fn overlap(leaf: &str, digest: &Digest) -> (r: usize)
    ensures
        r == common(leaf@, digest@),
{
    let mut hay = digest.game_system.clone();
    hay.append(" ");
    hay.append(digest.doc_type.as_str());
    hay.append(" ");
    hay.append(digest.title.as_str());
    let lower = chars_of(lowercase(hay.as_str()).as_str());
    let cs = chars_of(leaf);
    let mut flat: Vec<char> = Vec::new();
    let mut i: usize = 0;
    while i < cs.len()
        invariant
            cs@ == leaf@,
            i <= cs@.len(),
            flat@ =~= unslashed(leaf@).take(i as int),
        decreases cs@.len() - i,
    {
        if cs[i] == '/' {
            flat.push(' ');
        } else {
            flat.push(cs[i]);
        }
        i = i + 1;
    }
    assert(unslashed(leaf@).take(i as int) =~= unslashed(leaf@));
    let list = word_list(flat.as_slice());
    let ghost all = text::char_lists(list@);
    let mut count: usize = 0;
    let mut k: usize = 0;
    assert(all.take(0) =~= Seq::<Seq<char>>::empty());
    while k < list.len()
        invariant
            all == text::char_lists(list@),
            lower@ == subject(digest@),
            k <= list@.len(),
            count <= k,
            count == shared_words(all.take(k as int), subject(digest@)),
        decreases list@.len() - k,
    {
        assert(all.take(k + 1).drop_last() =~= all.take(k as int));
        assert(all.take(k + 1).last() == list@[k as int]@);
        let word = list[k].as_slice();
        let needle = chars_of(lowercase(text_of(word).as_str()).as_str());
        if utf8_len(word) > 3 && contains_chars(lower.as_slice(), needle.as_slice()) {
            count = count + 1;
        }
        k = k + 1;
    }
    assert(all.take(k as int) =~= all);
    count
}

/// Which of a folder's words occur in a document, by their positions: those of more
/// than three bytes count.
pub open spec fn shared_places(leaf: Seq<char>, d: DigestView) -> Set<int> {
    let list = text::words(unslashed(leaf));
    Set::new(
        |i: int|
            0 <= i < list.len() && text::byte_len(list[i]) > 3 && text::contains_text(
                text::lowered(d.game_system + " "@ + d.doc_type + " "@ + d.title),
                text::lowered(list[i]),
            ),
    )
}

proof fn lemma_shared(list: Seq<Seq<char>>, hay: Seq<char>)
    ensures
        ({
            let places = Set::new(
                |i: int|
                    0 <= i < list.len() && text::byte_len(list[i]) > 3 && text::contains_text(
                        hay,
                        text::lowered(list[i]),
                    ),
            );
            places.finite() && places.len() == shared_words(list, hay)
        }),
    decreases list.len(),
{
    let places = Set::new(
        |i: int|
            0 <= i < list.len() && text::byte_len(list[i]) > 3 && text::contains_text(
                hay,
                text::lowered(list[i]),
            ),
    );
    if list.len() == 0 {
        assert(places =~= Set::empty());
    } else {
        let front = list.drop_last();
        let word = list.last();
        lemma_shared(front, hay);
        let before = Set::new(
            |i: int|
                0 <= i < front.len() && text::byte_len(front[i]) > 3 && text::contains_text(
                    hay,
                    text::lowered(front[i]),
                ),
        );
        if text::byte_len(word) > 3 && text::contains_text(hay, text::lowered(word)) {
            assert(places =~= before.insert(list.len() - 1));
        } else {
            assert(places =~= before);
        }
    }
}

/// What a folder has in common with a document is the number of its longer words
/// that occur in the document's system, type and title.
pub proof fn longer_words_are_counted(leaf: Seq<char>, d: DigestView)
    ensures
        shared_places(leaf, d).finite(),
        common(leaf, d) == shared_places(leaf, d).len(),
{
    lemma_shared(text::words(unslashed(leaf)), subject(d));
}

/// The position of the last folder that shares the most words with a document.
pub open spec fn closest(leaves: Seq<Seq<char>>, d: DigestView) -> int
    decreases leaves.len(),
{
    if leaves.len() <= 1 {
        0
    } else {
        let before = closest(leaves.drop_last(), d);
        if common(leaves.last(), d) >= common(leaves[before], d) {
            leaves.len() - 1
        } else {
            before
        }
    }
}

/// What a document loses whose type has no folder: 0.15.
pub const FOR_THE_SYSTEM: u32 = 0x3e19_999a;

/// What a document loses that shares but a few words with its folder: 0.3.
pub const FOR_THE_WORDS: u32 = 0x3e99_999a;

/// Where the rules file a document: by system and type, else under the rest of
/// its system, else in whichever folder shares the most words with it.
pub open spec fn rule_filing(d: DigestView, leaves: Seq<Seq<char>>) -> FilingView {
    let exact = pair_leaf(pair_of(d));
    let other = other_leaf(d.game_system);
    if leaves.contains(exact) {
        FilingView {
            folder: exact,
            confidence: d.confidence,
            reason: "system and type match a leaf exactly"@,
        }
    } else if leaves.contains(other) {
        FilingView {
            folder: other,
            confidence: float::reduced(d.confidence, FOR_THE_SYSTEM, 0),
            reason: "no leaf for this document type; filed under the system"@,
        }
    } else {
        FilingView {
            folder: if leaves.len() == 0 {
                "Other"@
            } else {
                leaves[closest(leaves, d)]
            },
            confidence: float::reduced(d.confidence, FOR_THE_WORDS, 0),
            reason: "closest leaf by keyword overlap"@,
        }
    }
}

proof fn lemma_closest_in_range(leaves: Seq<Seq<char>>, d: DigestView)
    requires
        leaves.len() > 0,
    ensures
        0 <= closest(leaves, d) < leaves.len(),
    decreases leaves.len(),
{
    if leaves.len() > 1 {
        lemma_closest_in_range(leaves.drop_last(), d);
    }
}

/// Every document lands in a folder that exists, as long as there is one.
pub proof fn every_digest_lands_somewhere(d: DigestView, leaves: Seq<Seq<char>>)
    requires
        leaves.len() > 0,
    ensures
        leaves.contains(rule_filing(d, leaves).folder),
        float::at_least(d.confidence, 0) ==> float::at_least(
            d.confidence,
            rule_filing(d, leaves).confidence,
        ),
{
    float::reducing_never_adds(d.confidence, FOR_THE_SYSTEM);
    float::reducing_never_adds(d.confidence, FOR_THE_WORDS);
    lemma_closest_in_range(leaves, d);
    assert(leaves.contains(leaves[closest(leaves, d)]));
}

/// The folder that the rules fall back on shares at least as many words with the
/// document as any other.
pub proof fn the_closest_folder_shares_the_most(d: DigestView, leaves: Seq<Seq<char>>, i: int)
    requires
        0 <= i < leaves.len(),
    ensures
        0 <= closest(leaves, d) < leaves.len(),
        common(leaves[i], d) <= common(leaves[closest(leaves, d)], d),
        common(leaves[i], d) == common(leaves[closest(leaves, d)], d) ==> i <= closest(leaves, d),
    decreases leaves.len(),
{
    lemma_closest_in_range(leaves, d);
    if leaves.len() > 1 {
        let front = leaves.drop_last();
        lemma_closest_in_range(front, d);
        assert(leaves[closest(front, d)] == front[closest(front, d)]);
        if i < front.len() {
            the_closest_folder_shares_the_most(d, front, i);
            assert(leaves[i] == front[i]);
        }
    }
}

/// A document is filed by its system and type where there is such a folder, else
/// with the rest of its system, else where the most words fit; and the rules are the
/// less sure the further they had to look.
pub proof fn documents_are_filed_by_system_and_type(d: DigestView, leaves: Seq<Seq<char>>)
    ensures
        ({
            let f = rule_filing(d, leaves);
            let exact = d.game_system + "/"@ + title_cased(d.doc_type);
            let rest = d.game_system + "/Other"@;
            if leaves.contains(exact) {
                f.folder == exact && f.confidence == d.confidence
            } else if leaves.contains(rest) {
                f.folder == rest && f.confidence == float::reduced(d.confidence, 0x3e19_999a, 0)
            } else {
                &&& f.confidence == float::reduced(d.confidence, 0x3e99_999a, 0)
                &&& leaves.len() == 0 ==> f.folder == "Other"@
                &&& leaves.len() > 0 ==> leaves.contains(f.folder) && forall|i: int|
                    0 <= i < leaves.len() ==> common(#[trigger] leaves[i], d) <= common(f.folder, d)
            }
        }),
{
    if leaves.len() > 0 {
        lemma_closest_in_range(leaves, d);
        assert(leaves.contains(leaves[closest(leaves, d)]));
        assert forall|i: int| 0 <= i < leaves.len() implies common(#[trigger] leaves[i], d)
            <= common(leaves[closest(leaves, d)], d) by {
            the_closest_folder_shares_the_most(d, leaves, i);
        }
    }
}

fn closest_leaf(leaves: &Vec<String>, digest: &Digest) -> (r: usize)
    requires
        leaves@.len() > 0,
    ensures
        r == closest(text::texts(leaves@), digest@),
        r < leaves@.len(),
{
    let ghost all = text::texts(leaves@);
    let mut best: usize = 0;
    let mut i: usize = 1;
    while i < leaves.len()
        invariant
            all == text::texts(leaves@),
            1 <= i <= leaves@.len(),
            best < i,
            best == closest(all.take(i as int), digest@),
        decreases leaves@.len() - i,
    {
        assert(all.take(i + 1).drop_last() =~= all.take(i as int));
        assert(all[i as int] == leaves@[i as int]@ && all[best as int] == leaves@[best as int]@);
        if overlap(leaves[i].as_str(), digest) >= overlap(leaves[best].as_str(), digest) {
            best = i;
        }
        i = i + 1;
    }
    assert(all.take(i as int) =~= all);
    best
}

/// File a document by the rules.
pub fn file_by_rules(digest: &Digest, taxonomy: &Taxonomy) -> (r: Filing)
    ensures
        r@ == rule_filing(digest@, taxonomy.leaf_list()),
{
    let exact = leaf_of(digest.game_system.as_str(), digest.doc_type.as_str());
    if taxonomy.contains(exact.as_str()) {
        return Filing {
            folder: exact,
            confidence: digest.confidence,
            reason: own("system and type match a leaf exactly"),
        };
    }
    let other = other_of(digest.game_system.as_str());
    if taxonomy.contains(other.as_str()) {
        return Filing {
            folder: other,
            confidence: reduce(digest.confidence, FOR_THE_SYSTEM, 0),
            reason: own("no leaf for this document type; filed under the system"),
        };
    }
    let folder = if taxonomy.leaves.len() == 0 {
        own("Other")
    } else {
        let best: usize = closest_leaf(&taxonomy.leaves, digest);
        taxonomy.leaves[best].clone()
    };
    Filing {
        folder,
        confidence: reduce(digest.confidence, FOR_THE_WORDS, 0),
        reason: own("closest leaf by keyword overlap"),
    }
}

impl Brain for Heuristic {
    open spec fn is_called(&self, name: Seq<char>) -> bool {
        name == "heuristic"@
    }

    open spec fn describes(
        before: Self,
        probe: ProbeView,
        after: Self,
        r: Result<DigestFieldsView, Seq<char>>,
    ) -> bool {
        r == Ok::<DigestFieldsView, Seq<char>>(rule_digest(probe))
    }

    open spec fn designs(
        before: Self,
        corpus: Seq<DigestView>,
        cfg: TaxonomyConfig,
        after: Self,
        r: Result<Taxonomy, String>,
    ) -> bool {
        r matches Ok(t) && t.leaf_list() == rule_leaves(
            corpus,
            cfg.min_docs_per_leaf as nat,
            cfg.max_leaves as nat,
        ) && t.notes@.len() == 0
    }

    open spec fn files(
        before: Self,
        digest: DigestView,
        taxonomy: Taxonomy,
        after: Self,
        r: Result<FilingView, Seq<char>>,
    ) -> bool {
        r == Ok::<FilingView, Seq<char>>(rule_filing(digest, taxonomy.leaf_list()))
    }

    open spec fn refines(
        before: Self,
        lines: Seq<(usize, Seq<char>, usize)>,
        max_level: usize,
        after: Self,
        r: Result<Option<Vec<(usize, usize)>>, String>,
    ) -> bool {
        r is Ok && r->Ok_0 is None
    }

    fn name(&self) -> (r: String)
        ensures
            r@ == "heuristic"@,
    {
        own("heuristic")
    }

    fn digest(&mut self, probe: &Probe) -> (r: Result<DigestFields, String>)
        ensures
            r matches Ok(d) && d@ == rule_digest(probe@),
            r matches Ok(d) && goes_by_table(
                system_words(),
                text::lowered(probe@.file_name),
                text::lowered(probe@.text),
                "system neutral"@,
                d@.game_system,
            ),
            r matches Ok(d) && goes_by_table(
                type_words(),
                text::lowered(probe@.file_name),
                text::lowered(probe@.text),
                "other"@,
                d@.doc_type,
            ),
    {
        let name = lowercase(probe.file_name.as_str());
        let body = lowercase(probe.text.as_str());
        let levels = capture_pair(LEVELS, probe.text.as_str());
        Ok(describe(title_of(probe), name.as_str(), body.as_str(), levels, probe.scanned))
    }

    fn design_taxonomy(&mut self, corpus: &Vec<Digest>, cfg: &TaxonomyConfig) -> (r: Result<
        Taxonomy,
        String,
    >)
        ensures
            r matches Ok(t) && t.leaf_list() == rule_leaves(
                types::digest_views(corpus@),
                cfg.min_docs_per_leaf as nat,
                cfg.max_leaves as nat,
            ) && t.notes@.len() == 0,
    {
        Ok(Taxonomy { leaves: leaves_for(corpus, cfg), notes: Vec::new() })
    }

    fn file(&mut self, digest: &Digest, taxonomy: &Taxonomy) -> (r: Result<Filing, String>)
        ensures
            r matches Ok(f) && f@ == rule_filing(digest@, taxonomy.leaf_list()),
    {
        Ok(file_by_rules(digest, taxonomy))
    }

    /// Rules have no opinion on headings.
    fn refine_headings(
        &mut self,
        lines: &Vec<(usize, String, usize)>,
        max_level: usize,
    ) -> (r: Result<Option<Vec<(usize, usize)>>, String>)
        ensures
            r is Ok && r->Ok_0 is None,
    {
        Ok(None)
    }
}

} // verus!
