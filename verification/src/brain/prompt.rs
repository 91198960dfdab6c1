//! Prompts and GBNF grammars.
//!
//! Every model call is grammar-constrained, so the output is JSON of exactly
//! the expected shape and assignments can only name folders that exist. That
//! removes the whole class of "the model invented a category" failure.

use crate::config::TaxonomyConfig;
use crate::number;
use crate::number::decimal_usize;
use crate::text;
use crate::text::{chars_of, join_texts, own, text_of};
use crate::types;
use crate::types::{Digest, DigestView, Probe, ProbeView, Taxonomy};
use vstd::prelude::*;
use vstd::string::StringExecFns;

verus! {

/// Shared JSON string primitives for every grammar below. A string holds no raw
/// control character: JSON has none.
pub const PRIMITIVES: &'static str =
    "\nws ::= [ \\t\\n]*\nstring ::= \"\\\"\" char* \"\\\"\"\nchar ::= [^\"\\\\\\x00-\\x1f] | \"\\\\\" ([\"\\\\/bfnrt] | \"u\" [0-9a-fA-F]{4})\n";

/// A 0..=1 confidence, expressible as 0, 1, or 0.nnn.
pub const CONFIDENCE: &'static str = "\nconf ::= \"1\" | \"0\" (\".\" [0-9]{1,3})?\n";

pub const DIGEST_SYSTEM: &'static str =
    "You are a librarian cataloguing tabletop roleplaying game PDFs. \
You read a fragment of a document and record what it is. \
You answer only with JSON matching the requested schema. \
Use \"unknown\" for any field you cannot determine from the text — never guess. \
Confidence is how sure you are of doc_type and game_system together.";

pub fn digest_system() -> (r: String)
    ensures
        r@ == DIGEST_SYSTEM@,
{
    own(DIGEST_SYSTEM)
}

pub const SCAN_NOTICE: &'static str =
    "\nNo text could be extracted; this is an image scan. \
Judge from the file name and metadata alone and set confidence below 0.4.\n";

pub const DIGEST_FIELDS: &'static str = "\nFields:\n\
- title: the work's real title as printed on its cover or title page. Strip \
file-name noise: scan-site tags, product codes, release-group suffixes, \
underscores, version numbers. If the file name is an opaque code such as \
\"PZO30102E\", take the title from the document text instead. Include a \
subtitle only when it is part of the work's name.\n\
- game_system: e.g. \"D&D 5e\", \"D&D 3.5e\", \"Pathfinder 1e\", \"Pathfinder 2e\", \"Call of Cthulhu\", \"system neutral\"\n\
- doc_type: one of adventure, sourcebook, core rules, setting, bestiary, magic items, \
character options, spells, maps, random tables, generator, zine, character sheet, reference, other\n\
- setting: campaign setting if named, else \"unknown\"\n\
- level_range: e.g. \"1-5\", else \"unknown\"\n\
- publisher: e.g. \"Wizards of the Coast\", \"Paizo\", \"third party\", else \"unknown\"\n\
- topics: three to six short subject keywords\n\
- summary: one sentence on what a game master would use this for\n\
- confidence: 0 to 1\n";

/// A labelled line, if there is anything to put on it.
pub open spec fn optional_line(label: Seq<char>, value: Option<Seq<char>>) -> Seq<char> {
    match value {
        Some(v) => label + v + "\n"@,
        None => seq![],
    }
}

/// A page count as a line, if it is known.
pub open spec fn pages_line(pages: Option<usize>) -> Seq<char> {
    match pages {
        Some(n) => "Pages: "@ + number::digits(n as nat) + "\n"@,
        None => seq![],
    }
}

/// What the model is told about a document it is to catalogue.
pub open spec fn digest_request(p: ProbeView) -> Seq<char> {
    "Catalogue this document.\n\n"@ + "File name: "@ + p.file_name + "\n"@ + optional_line(
        "Embedded title: "@,
        p.pdf_title,
    ) + optional_line("Embedded author: "@, p.pdf_author) + optional_line(
        "Embedded subject: "@,
        p.pdf_subject,
    ) + pages_line(p.page_count) + (if p.scanned {
        SCAN_NOTICE@
    } else {
        "\nOpening text:\n---\n"@ + p.text + "\n---\n"@
    }) + DIGEST_FIELDS@
}

fn add_line(out: &mut String, label: &str, value: &Option<String>)
    ensures
        final(out)@ == old(out)@ + optional_line(label@, text::opt_text(*value)),
{
    let ghost start = out@;
    if let Some(v) = value {
        out.append(label);
        out.append(v.as_str());
        out.append("\n");
    }
    assert(out@ =~= start + optional_line(label@, text::opt_text(*value)));
}

fn add_pages(out: &mut String, pages: Option<usize>)
    ensures
        final(out)@ == old(out)@ + pages_line(pages),
{
    let ghost start = out@;
    if let Some(n) = pages {
        out.append("Pages: ");
        out.append(decimal_usize(n).as_str());
        out.append("\n");
    }
    assert(out@ =~= start + pages_line(pages));
}

pub fn digest_user(probe: &Probe) -> (r: String)
    ensures
        r@ == digest_request(probe@),
{
    let mut s = own("Catalogue this document.\n\n");
    s.append("File name: ");
    s.append(probe.file_name.as_str());
    s.append("\n");
    add_line(&mut s, "Embedded title: ", &probe.pdf_title);
    add_line(&mut s, "Embedded author: ", &probe.pdf_author);
    add_line(&mut s, "Embedded subject: ", &probe.pdf_subject);
    add_pages(&mut s, probe.page_count);
    let ghost head = s@;
    if probe.scanned {
        s.append(SCAN_NOTICE);
    } else {
        s.append("\nOpening text:\n---\n");
        s.append(probe.text.as_str());
        s.append("\n---\n");
    }
    assert(s@ =~= head + (if probe.scanned {
        SCAN_NOTICE@
    } else {
        "\nOpening text:\n---\n"@ + probe.text@ + "\n---\n"@
    }));
    s.append(DIGEST_FIELDS);
    s
}

/// One string field of the digest, as a piece of its grammar rule.
pub open spec fn field_rule(name: Seq<char>) -> Seq<char> {
    "\"\\\""@ + name + "\\\":\" ws string \",\" ws"@
}

/// The string fields of a digest, in the order the grammar asks for them.
pub open spec fn digest_field_names() -> Seq<Seq<char>> {
    seq![
        "title"@,
        "game_system"@,
        "doc_type"@,
        "setting"@,
        "level_range"@,
        "publisher"@,
    ]
}

pub open spec fn field_rules(names: Seq<Seq<char>>) -> Seq<Seq<char>> {
    Seq::new(names.len(), |i: int| field_rule(names[i]))
}

pub const DIGEST_TAIL: &'static str =
    " \"\\\"topics\\\":\" ws \"[\" ws (string (ws \",\" ws string){0,5})? ws \"]\" \",\" ws \"\\\"summary\\\":\" ws string \",\" ws \"\\\"confidence\\\":\" ws conf ws \"}\"\n";

/// The grammar of a digest: every field in its place.
pub open spec fn digest_rules() -> Seq<char> {
    "root ::= \"{\" ws "@ + text::joined(field_rules(digest_field_names()), " "@) + DIGEST_TAIL@
        + PRIMITIVES@ + CONFIDENCE@
}

pub fn digest_grammar() -> (r: String)
    ensures
        r@ == digest_rules(),
{
    // Every rule must be on a single line: a GBNF parser treats a newline as
    // the end of a rule, not as white space.
    let names: Vec<&'static str> = vec![
        "title",
        "game_system",
        "doc_type",
        "setting",
        "level_range",
        "publisher",
    ];
    let ghost all = digest_field_names();
    let mut rules: Vec<String> = Vec::new();
    let mut i: usize = 0;
    while i < names.len()
        invariant
            names@.len() == 6,
            i <= 6,
            all == digest_field_names(),
            forall|j: int| 0 <= j < 6 ==> (#[trigger] names@[j])@ == all[j],
            text::texts(rules@) =~= field_rules(all).take(i as int),
        decreases 6 - i,
    {
        let mut rule = own("\"\\\"");
        rule.append(names[i]);
        rule.append("\\\":\" ws string \",\" ws");
        assert(rule@ =~= field_rule(all[i as int]));
        let ghost before = rules@;
        rules.push(rule);
        proof {
            assert(text::texts(rules@) =~= text::texts(before).push(rule@));
        }
        i = i + 1;
    }
    assert(field_rules(all).take(6) =~= field_rules(all));
    let mut out = own("root ::= \"{\" ws ");
    out.append(join_texts(&rules, " ").as_str());
    out.append(DIGEST_TAIL);
    out.append(PRIMITIVES);
    out.append(CONFIDENCE);
    out
}

pub const VISION_SYSTEM: &'static str =
    "You are a librarian cataloguing tabletop roleplaying game PDFs. \
This document has no extractable text, so you are shown a picture of its first \
page instead. Read whatever is printed on it — a cover title, a map's name, a \
product code — and record what the document is. \
You answer only with JSON matching the requested schema. \
Use \"unknown\" for any field the page does not tell you.";

pub fn vision_digest_system() -> (r: String)
    ensures
        r@ == VISION_SYSTEM@,
{
    own(VISION_SYSTEM)
}

pub const VISION_ADVICE: &'static str =
    "\nThe file name may be a meaningless product code — if so, ignore it and \
take the title from the page itself.\n\
\n\
Judge the document type from what you see. A single large illustrated \
location with a grid, or a place drawn from above, is \"maps\" — a battle map \
or poster map, even when a page or two of description comes with it. A cover \
with a title and credits belongs to whatever the book is: an adventure, a \
sourcebook, a bestiary. Pages of stat blocks, spell lists or item entries take \
their type from that content.\n";

pub const VISION_FIELDS: &'static str = "\nFields:\n\
- title: the title printed on the page. If nothing is printed, say \"unknown\"\n\
- game_system: e.g. \"D&D 5e\", \"Pathfinder 1e\", \"system neutral\"\n\
- doc_type: one of adventure, sourcebook, core rules, setting, bestiary, magic items, \
character options, spells, maps, random tables, generator, zine, character sheet, reference, other\n\
- setting: campaign setting if named, else \"unknown\"\n\
- level_range: e.g. \"1-5\", else \"unknown\"\n\
- publisher: the logo or imprint on the page, else \"unknown\"\n\
- topics: three to six short subject keywords for what is depicted\n\
- summary: one sentence on what a game master would use this for\n\
- confidence: 0 to 1, based on how much the page actually told you\n";

/// What the vision model is told about a page it is shown.
pub open spec fn vision_request(p: ProbeView) -> Seq<char> {
    "This is the first page of a PDF.\n\n"@ + "File name: "@ + p.file_name + "\n"@ + optional_line(
        "Embedded title: "@,
        p.pdf_title,
    ) + pages_line(p.page_count) + VISION_ADVICE@ + VISION_FIELDS@
}

pub fn vision_digest_user(probe: &Probe) -> (r: String)
    ensures
        r@ == vision_request(probe@),
{
    let mut s = own("This is the first page of a PDF.\n\n");
    s.append("File name: ");
    s.append(probe.file_name.as_str());
    s.append("\n");
    add_line(&mut s, "Embedded title: ", &probe.pdf_title);
    add_pages(&mut s, probe.page_count);
    s.append(VISION_ADVICE);
    s.append(VISION_FIELDS);
    s
}

pub const TAXONOMY_INTRO: &'static str =
    "You are designing the folder tree for a tabletop RPG PDF library. \
You are given a catalogue of every document in the collection. \
Design a tree that fits THIS collection: no empty branches, no categories for \
material that is not present, and no more than ";

pub const TAXONOMY_RULES: &'static str = " levels deep.\n\
\n\
Rules:\n\
- The top level is the game system, exactly as it appears in the catalogue \
(\"D&D 5e\", \"Pathfinder 1e\", \"system neutral\"). A game master looks for \
their system first.\n\
- Below that, group by what the document is for at the table: adventures, \
rules, monsters, magic items, character options, tables and generators, maps.\n\
- Add a third level only where one second-level folder would otherwise hold \
dozens of documents — for example splitting adventures by level tier, or a \
large setting's material into its own folder.\n\
- Write folder names in Title Case, as a person would name them: \
\"Magic Items\", not \"magic-items\" or \"magic_items\".\n\
- Every document in the catalogue must have an obvious home.\n\
\n\
Answer only with a JSON array of slash-separated leaf paths, for example:\n\
[\"D&D 5e/Adventures/Tier 1\", \"D&D 5e/Magic Items\", \"Pathfinder 1e/Adventures\"]";

/// The instructions for designing a taxonomy within two limits.
pub open spec fn taxonomy_brief(max_leaves: nat, max_depth: nat) -> Seq<char> {
    TAXONOMY_INTRO@ + number::digits(max_leaves) + " leaf folders at most "@ + number::digits(max_depth)
        + TAXONOMY_RULES@
}

pub fn taxonomy_system(cfg: &TaxonomyConfig) -> (r: String)
    ensures
        r@ == taxonomy_brief(cfg.max_leaves as nat, cfg.max_depth as nat),
{
    let mut s = own(TAXONOMY_INTRO);
    s.append(decimal_usize(cfg.max_leaves).as_str());
    s.append(" leaf folders at most ");
    s.append(decimal_usize(cfg.max_depth).as_str());
    s.append(TAXONOMY_RULES);
    s
}

/// One line of the catalogue.
pub open spec fn catalogue_line(d: DigestView) -> Seq<char> {
    "- "@ + d.title + " | "@ + d.game_system + " | "@ + d.doc_type + " | "@ + d.setting + "\n"@
}

/// The catalogue, one line for each document.
pub open spec fn catalogue(corpus: Seq<DigestView>) -> Seq<char>
    decreases corpus.len(),
{
    if corpus.len() == 0 {
        seq![]
    } else {
        catalogue(corpus.drop_last()) + catalogue_line(corpus.last())
    }
}

pub open spec fn taxonomy_request(corpus: Seq<DigestView>) -> Seq<char> {
    "Catalogue:\n"@ + catalogue(corpus)
        + "\nDesign the leaf folder paths for this collection.\n"@
}

pub fn taxonomy_user(corpus: &[Digest]) -> (r: String)
    ensures
        r@ == taxonomy_request(types::digest_views(corpus@)),
{
    let ghost all = types::digest_views(corpus@);
    let mut s = own("Catalogue:\n");
    let mut i: usize = 0;
    assert(s@ =~= "Catalogue:\n"@ + catalogue(all.take(0)));
    while i < corpus.len()
        invariant
            i <= corpus@.len(),
            all == types::digest_views(corpus@),
            s@ == "Catalogue:\n"@ + catalogue(all.take(i as int)),
        decreases corpus@.len() - i,
    {
        let d = &corpus[i];
        let ghost before = s@;
        s.append("- ");
        s.append(d.title.as_str());
        s.append(" | ");
        s.append(d.game_system.as_str());
        s.append(" | ");
        s.append(d.doc_type.as_str());
        s.append(" | ");
        s.append(d.setting.as_str());
        s.append("\n");
        proof {
            let next = all.take(i + 1);
            assert(next.drop_last() =~= all.take(i as int));
            assert(next.last() == d@);
            assert(s@ =~= before + catalogue_line(d@));
            assert(s@ =~= "Catalogue:\n"@ + catalogue(next));
        }
        i = i + 1;
    }
    assert(all.take(i as int) =~= all);
    s.append("\nDesign the leaf folder paths for this collection.\n");
    s
}

/// One less than a limit, where a limit of nothing counts as one.
pub open spec fn further(limit: nat) -> nat {
    if limit > 1 {
        (limit - 1) as nat
    } else {
        0
    }
}

/// The grammar of a list of leaf paths within two limits.
pub open spec fn taxonomy_rules(max_leaves: nat, max_depth: nat) -> Seq<char> {
    "root ::= \"[\" ws (leaf (ws \",\" ws leaf){0,"@ + number::digits(further(max_leaves))
        + "})? ws \"]\"\nleaf ::= \"\\\"\" seg (\"/\" seg){0,"@ + number::digits(further(max_depth))
        + "} \"\\\"\"\nseg ::= [A-Za-z0-9&'()+.,! -]{1,40}\n"@ + PRIMITIVES@
}

pub fn taxonomy_grammar(cfg: &TaxonomyConfig) -> (r: String)
    ensures
        r@ == taxonomy_rules(cfg.max_leaves as nat, cfg.max_depth as nat),
{
    let max: usize = if cfg.max_leaves > 1 {
        cfg.max_leaves - 1
    } else {
        0
    };
    let depth: usize = if cfg.max_depth > 1 {
        cfg.max_depth - 1
    } else {
        0
    };
    let mut s = own("root ::= \"[\" ws (leaf (ws \",\" ws leaf){0,");
    s.append(decimal_usize(max).as_str());
    s.append("})? ws \"]\"\nleaf ::= \"\\\"\" seg (\"/\" seg){0,");
    s.append(decimal_usize(depth).as_str());
    s.append("} \"\\\"\"\nseg ::= [A-Za-z0-9&'()+.,! -]{1,40}\n");
    s.append(PRIMITIVES);
    s
}

pub const ASSIGN_SYSTEM: &'static str =
    "You file one catalogued document into an existing folder tree. \
You may only choose a folder from the list given. \
Pick the most specific folder that genuinely fits. \
Confidence is how well the document matches that folder.";

pub fn assign_system() -> (r: String)
    ensures
        r@ == ASSIGN_SYSTEM@,
{
    own(ASSIGN_SYSTEM)
}

/// The folders as a list, one on each line.
pub open spec fn folder_lines(leaves: Seq<Seq<char>>) -> Seq<char>
    decreases leaves.len(),
{
    if leaves.len() == 0 {
        seq![]
    } else {
        folder_lines(leaves.drop_last()) + "- "@ + leaves.last() + "\n"@
    }
}

/// What the model is told about a document it is to file.
pub open spec fn assign_request(d: DigestView, leaves: Seq<Seq<char>>) -> Seq<char> {
    "Folders:\n"@ + folder_lines(leaves) + "\nDocument:\n- title: "@ + d.title + "\n- system: "@
        + d.game_system + "\n- type: "@ + d.doc_type + "\n- setting: "@ + d.setting
        + "\n- levels: "@ + d.level_range + "\n- topics: "@ + text::joined(d.topics, ", "@)
        + "\n- summary: "@ + d.summary + "\n\nFile it.\n"@
}

pub fn assign_user(digest: &Digest, taxonomy: &Taxonomy) -> (r: String)
    ensures
        r@ == assign_request(digest@, taxonomy.leaf_list()),
{
    let ghost all = taxonomy.leaf_list();
    let mut s = own("Folders:\n");
    let mut i: usize = 0;
    assert(s@ =~= "Folders:\n"@ + folder_lines(all.take(0)));
    while i < taxonomy.leaves.len()
        invariant
            i <= taxonomy.leaves@.len(),
            all == text::texts(taxonomy.leaves@),
            s@ == "Folders:\n"@ + folder_lines(all.take(i as int)),
        decreases taxonomy.leaves@.len() - i,
    {
        s.append("- ");
        s.append(taxonomy.leaves[i].as_str());
        s.append("\n");
        proof {
            let next = all.take(i + 1);
            assert(next.drop_last() =~= all.take(i as int));
            assert(next.last() == taxonomy.leaves@[i as int]@);
            assert(s@ =~= "Folders:\n"@ + folder_lines(next));
        }
        i = i + 1;
    }
    assert(all.take(i as int) =~= all);
    s.append("\nDocument:\n- title: ");
    s.append(digest.title.as_str());
    s.append("\n- system: ");
    s.append(digest.game_system.as_str());
    s.append("\n- type: ");
    s.append(digest.doc_type.as_str());
    s.append("\n- setting: ");
    s.append(digest.setting.as_str());
    s.append("\n- levels: ");
    s.append(digest.level_range.as_str());
    s.append("\n- topics: ");
    s.append(join_texts(&digest.topics, ", ").as_str());
    s.append("\n- summary: ");
    s.append(digest.summary.as_str());
    s.append("\n\nFile it.\n");
    s
}

// ---------------------------------------------------------------------------
// The filing grammar
// ---------------------------------------------------------------------------

/// A character as it stands in a GBNF literal.
pub open spec fn escaped_char(c: char) -> Seq<char> {
    if c == '\\' {
        seq!['\\', '\\']
    } else if c == '"' {
        seq!['\\', '"']
    } else {
        seq![c]
    }
}

/// A text as it stands in a GBNF literal: backslashes and quotes escaped.
pub open spec fn escaped(s: Seq<char>) -> Seq<char>
    decreases s.len(),
{
    if s.len() == 0 {
        seq![]
    } else {
        escaped(s.drop_last()) + escaped_char(s.last())
    }
}

/// The last hexadecimal digit of a number.
pub open spec fn low_hex(n: u32) -> char {
    match n % 16 {
        0 => '0',
        1 => '1',
        2 => '2',
        3 => '3',
        4 => '4',
        5 => '5',
        6 => '6',
        7 => '7',
        8 => '8',
        9 => '9',
        10 => 'a',
        11 => 'b',
        12 => 'c',
        13 => 'd',
        14 => 'e',
        _ => 'f',
    }
}

/// A character as it stands in a JSON string.
pub open spec fn json_char(c: char) -> Seq<char> {
    if c == '\\' {
        seq!['\\', '\\']
    } else if c == '"' {
        seq!['\\', '"']
    } else if (c as u32) < 0x20 {
        seq![
            '\\',
            'u',
            '0',
            '0',
            if (c as u32) < 0x10 {
                '0'
            } else {
                '1'
            },
            low_hex(c as u32),
        ]
    } else {
        seq![c]
    }
}

/// A text as it stands in a JSON string: backslashes, quotes and control
/// characters escaped.
pub open spec fn json_text(s: Seq<char>) -> Seq<char>
    decreases s.len(),
{
    if s.len() == 0 {
        seq![]
    } else {
        json_text(s.drop_last()) + json_char(s.last())
    }
}

/// The alternative that admits exactly one folder, as a JSON string.
pub open spec fn alternative(leaf: Seq<char>) -> Seq<char> {
    "\"\\\""@ + escaped(json_text(leaf)) + "\\\"\""@
}

pub open spec fn alternatives(leaves: Seq<Seq<char>>) -> Seq<Seq<char>> {
    Seq::new(leaves.len(), |i: int| alternative(leaves[i]))
}

pub const FILING_ROOT: &'static str =
    "root ::= \"{\" ws \"\\\"folder\\\":\" ws folder \",\" ws \"\\\"confidence\\\":\" ws conf \",\" ws \"\\\"reason\\\":\" ws string ws \"}\"\nfolder ::= ";

/// The grammar that admits only the folders of a taxonomy.
pub open spec fn filing_rules(leaves: Seq<Seq<char>>) -> Seq<char> {
    FILING_ROOT@ + text::joined(alternatives(leaves), " | "@) + "\n"@ + PRIMITIVES@ + CONFIDENCE@
}

fn low_hex_of(n: u32) -> (r: char)
    ensures
        r == low_hex(n),
{
    match n % 16 {
        0 => '0',
        1 => '1',
        2 => '2',
        3 => '3',
        4 => '4',
        5 => '5',
        6 => '6',
        7 => '7',
        8 => '8',
        9 => '9',
        10 => 'a',
        11 => 'b',
        12 => 'c',
        13 => 'd',
        14 => 'e',
        _ => 'f',
    }
}

/// Escape a text for a JSON string.
pub fn escape_json(s: &str) -> (r: String)
    ensures
        r@ == json_text(s@),
{
    let cs = chars_of(s);
    let mut out: Vec<char> = Vec::new();
    let mut i: usize = 0;
    assert(cs@.take(0) =~= Seq::<char>::empty());
    while i < cs.len()
        invariant
            cs@ == s@,
            i <= cs@.len(),
            out@ == json_text(s@.take(i as int)),
        decreases cs@.len() - i,
    {
        let c = cs[i];
        let n: u32 = c as u32;
        let ghost before = out@;
        if c == '\\' {
            out.push('\\');
            out.push('\\');
        } else if c == '"' {
            out.push('\\');
            out.push('"');
        } else if n < 0x20 {
            out.push('\\');
            out.push('u');
            out.push('0');
            out.push('0');
            out.push(
                if n < 0x10 {
                    '0'
                } else {
                    '1'
                },
            );
            out.push(low_hex_of(n));
        } else {
            out.push(c);
        }
        proof {
            assert(out@ =~= before + json_char(c));
            assert(s@.take(i + 1).drop_last() =~= s@.take(i as int));
        }
        i = i + 1;
    }
    assert(s@.take(i as int) =~= s@);
    text_of(out.as_slice())
}

/// Escape backslashes and quotes for a GBNF literal.
pub fn escape_gbnf(s: &str) -> (r: String)
    ensures
        r@ == escaped(s@),
{
    let cs = chars_of(s);
    let mut out: Vec<char> = Vec::new();
    let mut i: usize = 0;
    assert(cs@.take(0) =~= Seq::<char>::empty());
    while i < cs.len()
        invariant
            cs@ == s@,
            i <= cs@.len(),
            out@ == escaped(s@.take(i as int)),
        decreases cs@.len() - i,
    {
        let c = cs[i];
        let ghost before = out@;
        if c == '\\' {
            out.push('\\');
            out.push('\\');
        } else if c == '"' {
            out.push('\\');
            out.push('"');
        } else {
            out.push(c);
        }
        proof {
            assert(out@ =~= before + escaped_char(c));
            assert(s@.take(i + 1).drop_last() =~= s@.take(i as int));
        }
        i = i + 1;
    }
    assert(s@.take(i as int) =~= s@);
    text_of(out.as_slice())
}

/// Grammar that admits only the folders that actually exist in the taxonomy.
pub fn assign_grammar(taxonomy: &Taxonomy) -> (r: String)
    ensures
        r@ == filing_rules(taxonomy.leaf_list()),
{
    let ghost all = alternatives(taxonomy.leaf_list());
    let mut choices: Vec<String> = Vec::new();
    let mut i: usize = 0;
    while i < taxonomy.leaves.len()
        invariant
            i <= taxonomy.leaves@.len(),
            all == alternatives(text::texts(taxonomy.leaves@)),
            text::texts(choices@) =~= all.take(i as int),
        decreases taxonomy.leaves@.len() - i,
    {
        let mut choice = own("\"\\\"");
        let json = escape_json(taxonomy.leaves[i].as_str());
        choice.append(escape_gbnf(json.as_str()).as_str());
        choice.append("\\\"\"");
        assert(choice@ == alternative(taxonomy.leaves@[i as int]@));
        let ghost before = choices@;
        choices.push(choice);
        proof {
            assert(text::texts(choices@) =~= text::texts(before).push(choice@));
        }
        i = i + 1;
    }
    assert(all.take(i as int) =~= all);
    let mut out = own(FILING_ROOT);
    out.append(join_texts(&choices, " | ").as_str());
    out.append("\n");
    out.append(PRIMITIVES);
    out.append(CONFIDENCE);
    out
}

/// What a GBNF reader makes of the inside of a literal that starts at `i`: the
/// text up to the first quote that is not escaped, and where that quote stands.
pub open spec fn literal_from(s: Seq<char>, i: int) -> Option<(Seq<char>, int)>
    decreases s.len() - i,
{
    if i < 0 || i >= s.len() {
        None
    } else if s[i] == '"' {
        Some((seq![], i))
    } else if s[i] == '\\' {
        if i + 1 >= s.len() {
            None
        } else {
            match literal_from(s, i + 2) {
                Some((rest, end)) => Some((seq![s[i + 1]] + rest, end)),
                None => None,
            }
        }
    } else {
        match literal_from(s, i + 1) {
            Some((rest, end)) => Some((seq![s[i]] + rest, end)),
            None => None,
        }
    }
}

proof fn lemma_escaped_front(s: Seq<char>)
    requires
        s.len() > 0,
    ensures
        escaped(s) == escaped_char(s[0]) + escaped(s.drop_first()),
    decreases s.len(),
{
    if s.len() == 1 {
        assert(s.drop_last() =~= Seq::<char>::empty());
        assert(s.drop_first() =~= Seq::<char>::empty());
        assert(escaped(s) =~= escaped_char(s[0]) + escaped(s.drop_first()));
    } else {
        lemma_escaped_front(s.drop_last());
        assert(s.drop_last().drop_first() =~= s.drop_first().drop_last());
        assert(escaped(s) =~= escaped_char(s[0]) + escaped(s.drop_first()));
    }
}

/// Reading an escaped text that starts at `i` and runs up to what follows it.
proof fn lemma_literal(s: Seq<char>, i: int, body: Seq<char>)
    requires
        0 <= i,
        i + escaped(body).len() <= s.len(),
        s.subrange(i, i + escaped(body).len()) == escaped(body),
    ensures
        literal_from(s, i) == (match literal_from(s, i + escaped(body).len()) {
            Some((rest, end)) => Some((body + rest, end)),
            None => None,
        }),
    decreases body.len(),
{
    if body.len() == 0 {
        assert(escaped(body).len() == 0);
        match literal_from(s, i) {
            Some((rest, end)) => {
                assert(body + rest =~= rest);
            },
            None => {},
        }
    } else {
        lemma_escaped_front(body);
        let c = body[0];
        let rest_body = body.drop_first();
        let w = escaped_char(c).len();
        let e = escaped(body);
        let part = s.subrange(i, i + e.len());
        assert(s.subrange(i + w, i + w + escaped(rest_body).len()) =~= escaped(rest_body)) by {
            assert forall|k: int| 0 <= k < escaped(rest_body).len() implies s[i + w + k] == escaped(
                rest_body,
            )[k] by {
                assert(part[w + k] == s[i + w + k]);
                assert(e[w + k] == escaped(rest_body)[k]);
            }
        }
        assert(part[0] == s[i] && e[0] == escaped_char(c)[0]);
        if w == 2 {
            assert(part[1] == s[i + 1] && e[1] == escaped_char(c)[1]);
        }
        lemma_literal(s, i + w, rest_body);
        match literal_from(s, i + e.len()) {
            Some((rest, end)) => {
                assert(seq![c] + (rest_body + rest) =~= body + rest);
            },
            None => {},
        }
    }
}

/// A folder name cannot break out of its literal: whatever the folder is
/// called, a reader of its alternative finds one literal, which is the whole
/// alternative, and which stands for the folder's name as a JSON string.
pub proof fn an_alternative_is_one_literal(leaf: Seq<char>)
    ensures
        alternative(leaf).len() > 1,
        alternative(leaf)[0] == '"',
        literal_from(alternative(leaf), 1) == Some(
            (seq!['"'] + json_text(leaf) + seq!['"'], alternative(leaf).len() - 1),
        ),
{
    reveal_strlit("\"\\\"");
    reveal_strlit("\\\"\"");
    let a = alternative(leaf);
    let json = json_text(leaf);
    let e = escaped(json);
    let n = e.len() as int;
    assert(a =~= seq!['"', '\\', '"'] + e + seq!['\\', '"', '"']);
    assert(a.subrange(3, 3 + n) =~= e);
    lemma_literal(a, 3, json);
    let end = n + 5;
    assert(a[3 + n] == '\\' && a[3 + n + 1] == '"' && a[end] == '"');
    assert(literal_from(a, end) == Some((Seq::<char>::empty(), end)));
    assert(literal_from(a, 3 + n) == Some((seq!['"'] + Seq::<char>::empty(), end)));
    assert(seq!['"'] + Seq::<char>::empty() =~= seq!['"']);
    assert(literal_from(a, 3) == Some((json + seq!['"'], end)));
    assert(literal_from(a, 1) == Some((seq!['"'] + (json + seq!['"']), end)));
    assert(seq!['"'] + (json + seq!['"']) =~= seq!['"'] + json + seq!['"']);
}

proof fn lemma_json_front(s: Seq<char>)
    requires
        s.len() > 0,
    ensures
        json_text(s) == json_char(s[0]) + json_text(s.drop_first()),
    decreases s.len(),
{
    if s.len() == 1 {
        assert(s.drop_last() =~= Seq::<char>::empty());
        assert(s.drop_first() =~= Seq::<char>::empty());
        assert(json_text(s) =~= json_char(s[0]) + json_text(s.drop_first()));
    } else {
        lemma_json_front(s.drop_last());
        assert(s.drop_last().drop_first() =~= s.drop_first().drop_last());
        assert(json_text(s) =~= json_char(s[0]) + json_text(s.drop_first()));
    }
}

/// Escaped texts begin with the same character only if the texts do.
proof fn lemma_json_first(a: char, x: Seq<char>, b: char, y: Seq<char>)
    requires
        json_char(a) + x == json_char(b) + y,
    ensures
        a == b,
        x == y,
{
    let p = json_char(a) + x;
    let q = json_char(b) + y;
    assert(p[0] == json_char(a)[0] && q[0] == json_char(b)[0]);
    if p[0] == '\\' {
        assert(p[1] == json_char(a)[1] && q[1] == json_char(b)[1]);
        if p[1] == 'u' {
            assert(p[4] == json_char(a)[4] && q[4] == json_char(b)[4]);
            assert(p[5] == json_char(a)[5] && q[5] == json_char(b)[5]);
            assert(a as u32 == b as u32);
        }
    }
    assert(a == b);
    assert(x =~= p.skip(json_char(a).len() as int));
    assert(y =~= q.skip(json_char(b).len() as int));
}

/// Different texts stand differently in a JSON string, so what is read is what
/// was written.
pub proof fn json_tells_texts_apart(a: Seq<char>, b: Seq<char>)
    requires
        json_text(a) == json_text(b),
    ensures
        a == b,
    decreases a.len(),
{
    if a.len() > 0 {
        lemma_json_front(a);
    }
    if b.len() > 0 {
        lemma_json_front(b);
    }
    if a.len() > 0 && b.len() > 0 {
        lemma_json_first(a[0], json_text(a.drop_first()), b[0], json_text(b.drop_first()));
        json_tells_texts_apart(a.drop_first(), b.drop_first());
        assert(a =~= seq![a[0]] + a.drop_first());
        assert(b =~= seq![b[0]] + b.drop_first());
    } else if a.len() > 0 {
        assert(json_text(b).len() == 0 && json_char(a[0]).len() > 0);
    } else if b.len() > 0 {
        assert(json_text(a).len() == 0 && json_char(b[0]).len() > 0);
    } else {
        assert(a =~= b);
    }
}

/// What stands in a JSON string holds no control character.
proof fn lemma_json_plain(s: Seq<char>)
    ensures
        forall|i: int| 0 <= i < json_text(s).len() ==> (#[trigger] json_text(s)[i]) as u32 >= 0x20,
    decreases s.len(),
{
    if s.len() > 0 {
        let t = s.drop_last();
        lemma_json_plain(t);
        assert forall|i: int| 0 <= i < json_text(s).len() implies (#[trigger] json_text(s)[i]) as u32
            >= 0x20 by {
            if i < json_text(t).len() {
                assert(json_text(s)[i] == json_text(t)[i]);
            } else {
                assert(json_text(s)[i] == json_char(s.last())[i - json_text(t).len()]);
            }
        }
    }
}

/// Different folders have different alternatives, so the grammar tells every
/// two folders apart.
pub proof fn alternatives_tell_folders_apart(a: Seq<char>, b: Seq<char>)
    requires
        alternative(a) == alternative(b),
    ensures
        a == b,
{
    an_alternative_is_one_literal(a);
    an_alternative_is_one_literal(b);
    let x = seq!['"'] + json_text(a) + seq!['"'];
    let y = seq!['"'] + json_text(b) + seq!['"'];
    assert(x == y);
    assert(x.subrange(1, x.len() - 1) =~= json_text(a));
    assert(y.subrange(1, y.len() - 1) =~= json_text(b));
    json_tells_texts_apart(a, b);
}

proof fn lemma_escaped_line(s: Seq<char>)
    requires
        !s.contains('\n'),
    ensures
        !escaped(s).contains('\n'),
    decreases s.len(),
{
    if s.len() > 0 {
        let t = s.drop_last();
        assert(!t.contains('\n')) by {
            if t.contains('\n') {
                let i = choose|i: int| 0 <= i < t.len() && t[i] == '\n';
                assert(s[i] == '\n');
            }
        }
        assert(s.contains(s.last()));
        lemma_escaped_line(t);
        if escaped(s).contains('\n') {
            let i = choose|i: int| 0 <= i < escaped(s).len() && escaped(s)[i] == '\n';
            if i < escaped(t).len() {
                assert(escaped(t)[i] == '\n');
            } else {
                assert(escaped_char(s.last())[i - escaped(t).len()] == '\n');
            }
        }
    }
}

/// The folder rule stays on one line, whatever the folders are called: a grammar
/// must keep one rule per line.
pub proof fn the_folder_rule_stays_on_one_line(leaves: Seq<Seq<char>>)
    ensures
        !text::joined(alternatives(leaves), " | "@).contains('\n'),
{
    let all = alternatives(leaves);
    let text = text::joined(all, " | "@);
    reveal_strlit(" | ");
    reveal_strlit("\"\\\"");
    reveal_strlit("\\\"\"");
    if text.contains('\n') {
        let i = choose|i: int| 0 <= i < text.len() && text[i] == '\n';
        text::lemma_joined_chars(all, " | "@, i);
        if " | "@.contains('\n') {
            let j = choose|j: int| 0 <= j < " | "@.len() && " | "@[j] == '\n';
            assert(j == 0 || j == 1 || j == 2);
        } else {
            let k = choose|k: int| 0 <= k < all.len() && (#[trigger] all[k]).contains('\n');
            let leaf = leaves[k];
            let json = json_text(leaf);
            lemma_json_plain(leaf);
            if json.contains('\n') {
                let m = choose|m: int| 0 <= m < json.len() && json[m] == '\n';
                assert(json[m] as u32 >= 0x20);
            }
            lemma_escaped_line(json);
            let a = alternative(leaf);
            assert(all[k] == a);
            let j = choose|j: int| 0 <= j < a.len() && a[j] == '\n';
            let n = escaped(json).len();
            if j < 2 {
                assert(a[j] == "\"\\\""@[j]);
            } else if j < 2 + n {
            } else {
                assert(a[j] == "\\\"\""@[j - 2 - n]);
            }
        }
    }
}

// ---------------------------------------------------------------------------
// Headings
// ---------------------------------------------------------------------------

pub const HEADINGS_SYSTEM: &'static str =
    "You are building the table of contents for a tabletop roleplaying game book. \
You are given lines of large type taken from its pages, in reading order, \
numbered. Some are real chapter and section headings. Others are not: sidebar \
titles, spell or monster names in a list, decorative pull quotes, running \
headers, advertisements, credits.\n\
\n\
Choose the lines a reader would want in a table of contents, and give each a \
level: 0 for a part or chapter, 1 for a section within it, 2 for a subsection. \
Keep them in the order given. Prefer too few to too many — a contents page of \
every monster in the bestiary is no use to anyone.\n\
\n\
Answer only with a JSON array of {\"i\": line number, \"l\": level}.";

pub fn headings_system() -> (r: String)
    ensures
        r@ == HEADINGS_SYSTEM@,
{
    own(HEADINGS_SYSTEM)
}

/// A numbered line of large type and the page it stands on.
pub open spec fn heading_line(line: (usize, String, usize)) -> Seq<char> {
    number::digits(line.0 as nat) + ": "@ + line.1@ + "  (page "@ + number::digits(line.2 as nat) + ")\n"@
}

pub open spec fn heading_lines(lines: Seq<(usize, String, usize)>) -> Seq<char>
    decreases lines.len(),
{
    if lines.len() == 0 {
        seq![]
    } else {
        heading_lines(lines.drop_last()) + heading_line(lines.last())
    }
}

pub open spec fn headings_request(lines: Seq<(usize, String, usize)>) -> Seq<char> {
    "Lines of large type, in reading order:\n"@ + heading_lines(lines)
        + "\nWhich of these belong in the table of contents?\n"@
}

pub fn headings_user(lines: &[(usize, String, usize)]) -> (r: String)
    ensures
        r@ == headings_request(lines@),
{
    let mut s = own("Lines of large type, in reading order:\n");
    let mut i: usize = 0;
    assert(s@ =~= "Lines of large type, in reading order:\n"@ + heading_lines(lines@.take(0)));
    while i < lines.len()
        invariant
            i <= lines@.len(),
            s@ == "Lines of large type, in reading order:\n"@ + heading_lines(
                lines@.take(i as int),
            ),
        decreases lines@.len() - i,
    {
        let line = &lines[i];
        s.append(decimal_usize(line.0).as_str());
        s.append(": ");
        s.append(line.1.as_str());
        s.append("  (page ");
        s.append(decimal_usize(line.2).as_str());
        s.append(")\n");
        proof {
            let next = lines@.take(i + 1);
            assert(next.drop_last() =~= lines@.take(i as int));
            assert(next.last() == *line);
            assert(s@ =~= "Lines of large type, in reading order:\n"@ + heading_lines(next));
        }
        i = i + 1;
    }
    assert(lines@.take(i as int) =~= lines@);
    s.append("\nWhich of these belong in the table of contents?\n");
    s
}

/// The highest level the heading grammar admits, a single digit.
pub open spec fn top_level(max_level: nat) -> nat {
    if further(max_level) > 9 {
        9
    } else {
        further(max_level)
    }
}

/// The grammar of a heading selection: an index as wide as the highest one,
/// and a level.
pub open spec fn heading_rules(max_index: nat, max_level: nat) -> Seq<char> {
    "root ::= \"[\" (item (\",\" item)*)? \"]\"\nitem ::= \"{\\\"i\\\":\" index \",\\\"l\\\":\" [0-"@
        + number::digits(top_level(max_level)) + "] \"}\"\nindex ::= [0-9]{1,"@ + number::digits(
        number::digits(max_index).len(),
    ) + "}\n"@
}

/// Grammar for the heading selection: index and level only, so the model
/// cannot invent a heading or a page number — it can only choose among the
/// lines it was shown. No white space anywhere: allowing it lets the model
/// pretty-print and run out of budget.
pub fn headings_grammar(max_index: usize, max_level: usize) -> (r: String)
    ensures
        r@ == heading_rules(max_index as nat, max_level as nat),
{
    let width = chars_of(decimal_usize(max_index).as_str());
    let level: usize = if max_level <= 1 {
        0
    } else if max_level - 1 > 9 {
        9
    } else {
        max_level - 1
    };
    let mut s = own(
        "root ::= \"[\" (item (\",\" item)*)? \"]\"\nitem ::= \"{\\\"i\\\":\" index \",\\\"l\\\":\" [0-",
    );
    s.append(decimal_usize(level).as_str());
    s.append("] \"}\"\nindex ::= [0-9]{1,");
    s.append(decimal_usize(width.len()).as_str());
    s.append("}\n");
    s
}

// ---------------------------------------------------------------------------
// What is told
// ---------------------------------------------------------------------------

proof fn lemma_line_told(label: Seq<char>, value: Seq<char>)
    ensures
        text::contains_text(optional_line(label, Some(value)), value),
{
    text::lemma_told(label, value, value);
    text::lemma_told(label + value, "\n"@, value);
}

/// The request to catalogue a document tells the model its file name, what is
/// embedded in it, and its text, unless it is a scan.
pub proof fn a_request_tells_what_is_known(p: ProbeView)
    ensures
        text::contains_text(digest_request(p), p.file_name),
        p.pdf_title matches Some(t) ==> text::contains_text(digest_request(p), t),
        p.pdf_author matches Some(t) ==> text::contains_text(digest_request(p), t),
        p.pdf_subject matches Some(t) ==> text::contains_text(digest_request(p), t),
        p.page_count matches Some(n) ==> text::contains_text(
            digest_request(p),
            number::digits(n as nat),
        ),
        !p.scanned ==> text::contains_text(digest_request(p), p.text),
        p.scanned ==> text::contains_text(digest_request(p), SCAN_NOTICE@),
{
    let a = "Catalogue this document.\n\n"@ + "File name: "@;
    let b = a + p.file_name;
    let c = b + "\n"@;
    let title = optional_line("Embedded title: "@, p.pdf_title);
    let author = optional_line("Embedded author: "@, p.pdf_author);
    let subject = optional_line("Embedded subject: "@, p.pdf_subject);
    let pages = pages_line(p.page_count);
    let body = if p.scanned {
        SCAN_NOTICE@
    } else {
        "\nOpening text:\n---\n"@ + p.text + "\n---\n"@
    };
    let d = c + title;
    let e = d + author;
    let f = e + subject;
    let g = f + pages;
    let h = g + body;
    assert(digest_request(p) == h + DIGEST_FIELDS@);
    text::lemma_told(a, p.file_name, p.file_name);
    text::lemma_told(b, "\n"@, p.file_name);
    text::lemma_told(c, title, p.file_name);
    text::lemma_told(d, author, p.file_name);
    text::lemma_told(e, subject, p.file_name);
    text::lemma_told(f, pages, p.file_name);
    text::lemma_told(g, body, p.file_name);
    text::lemma_told(h, DIGEST_FIELDS@, p.file_name);
    if let Some(t) = p.pdf_title {
        lemma_line_told("Embedded title: "@, t);
        text::lemma_told(c, title, t);
        text::lemma_told(d, author, t);
        text::lemma_told(e, subject, t);
        text::lemma_told(f, pages, t);
        text::lemma_told(g, body, t);
        text::lemma_told(h, DIGEST_FIELDS@, t);
    }
    if let Some(t) = p.pdf_author {
        lemma_line_told("Embedded author: "@, t);
        text::lemma_told(d, author, t);
        text::lemma_told(e, subject, t);
        text::lemma_told(f, pages, t);
        text::lemma_told(g, body, t);
        text::lemma_told(h, DIGEST_FIELDS@, t);
    }
    if let Some(t) = p.pdf_subject {
        lemma_line_told("Embedded subject: "@, t);
        text::lemma_told(e, subject, t);
        text::lemma_told(f, pages, t);
        text::lemma_told(g, body, t);
        text::lemma_told(h, DIGEST_FIELDS@, t);
    }
    if let Some(n) = p.page_count {
        let t = number::digits(n as nat);
        text::lemma_told("Pages: "@, t, t);
        text::lemma_told("Pages: "@ + t, "\n"@, t);
        text::lemma_told(f, pages, t);
        text::lemma_told(g, body, t);
        text::lemma_told(h, DIGEST_FIELDS@, t);
    }
    if p.scanned {
        text::lemma_told(g, body, SCAN_NOTICE@);
        text::lemma_told(h, DIGEST_FIELDS@, SCAN_NOTICE@);
    } else {
        let t = p.text;
        let start = "\nOpening text:\n---\n"@;
        text::lemma_told(start, t, t);
        text::lemma_told(start + t, "\n---\n"@, t);
        text::lemma_told(g, body, t);
        text::lemma_told(h, DIGEST_FIELDS@, t);
    }
}

proof fn lemma_folder_told(leaves: Seq<Seq<char>>, i: int)
    requires
        0 <= i < leaves.len(),
    ensures
        text::contains_text(folder_lines(leaves), leaves[i]),
    decreases leaves.len(),
{
    let front = folder_lines(leaves.drop_last());
    let last = leaves.last();
    let x = leaves[i];
    if i < leaves.len() - 1 {
        lemma_folder_told(leaves.drop_last(), i);
        text::lemma_told(front, "- "@, x);
    } else {
        text::lemma_told(front + "- "@, last, x);
    }
    text::lemma_told(front + "- "@, last, x);
    text::lemma_told(front + "- "@ + last, "\n"@, x);
}

/// The request to file a document tells the model every folder that there is.
pub proof fn every_folder_is_offered(d: DigestView, leaves: Seq<Seq<char>>, i: int)
    requires
        0 <= i < leaves.len(),
    ensures
        text::contains_text(assign_request(d, leaves), leaves[i]),
{
    let x = leaves[i];
    let a = "Folders:\n"@;
    let b = folder_lines(leaves);
    let rest = "\nDocument:\n- title: "@ + d.title + "\n- system: "@ + d.game_system
        + "\n- type: "@ + d.doc_type + "\n- setting: "@ + d.setting + "\n- levels: "@
        + d.level_range + "\n- topics: "@ + text::joined(d.topics, ", "@) + "\n- summary: "@
        + d.summary + "\n\nFile it.\n"@;
    lemma_folder_told(leaves, i);
    text::lemma_told(a, b, x);
    text::lemma_told(a + b, rest, x);
    assert(assign_request(d, leaves) =~= (a + b) + rest);
}

/// The request to file a document tells the model its title, its system and its
/// type.
pub proof fn the_document_is_described(d: DigestView, leaves: Seq<Seq<char>>)
    ensures
        text::contains_text(assign_request(d, leaves), d.title),
        text::contains_text(assign_request(d, leaves), d.game_system),
        text::contains_text(assign_request(d, leaves), d.doc_type),
        text::contains_text(assign_request(d, leaves), d.summary),
{
    let a = "Folders:\n"@ + folder_lines(leaves) + "\nDocument:\n- title: "@;
    let b = "\n- system: "@;
    let c = "\n- type: "@;
    let e = "\n- setting: "@ + d.setting + "\n- levels: "@ + d.level_range + "\n- topics: "@
        + text::joined(d.topics, ", "@) + "\n- summary: "@;
    let f = "\n\nFile it.\n"@;
    let all = assign_request(d, leaves);
    let t1 = b + d.game_system + c + d.doc_type + e + d.summary + f;
    assert(all =~= (a + d.title) + t1);
    text::lemma_told(a, d.title, d.title);
    text::lemma_told(a + d.title, t1, d.title);
    let h2 = a + d.title + b;
    let t2 = c + d.doc_type + e + d.summary + f;
    assert(all =~= (h2 + d.game_system) + t2);
    text::lemma_told(h2, d.game_system, d.game_system);
    text::lemma_told(h2 + d.game_system, t2, d.game_system);
    let h3 = h2 + d.game_system + c;
    let t3 = e + d.summary + f;
    assert(all =~= (h3 + d.doc_type) + t3);
    text::lemma_told(h3, d.doc_type, d.doc_type);
    text::lemma_told(h3 + d.doc_type, t3, d.doc_type);
    let h4 = h3 + d.doc_type + e;
    assert(all =~= (h4 + d.summary) + f);
    text::lemma_told(h4, d.summary, d.summary);
    text::lemma_told(h4 + d.summary, f, d.summary);
}

/// The catalogue that a tree is designed from tells of every document.
pub proof fn every_document_is_catalogued(corpus: Seq<DigestView>, i: int)
    requires
        0 <= i < corpus.len(),
    ensures
        text::contains_text(
            taxonomy_request(corpus),
            corpus[i].title + " | "@ + corpus[i].game_system + " | "@ + corpus[i].doc_type + " | "@
                + corpus[i].setting,
        ),
{
    let d = corpus[i];
    let x = d.title + " | "@ + d.game_system + " | "@ + d.doc_type + " | "@ + d.setting;
    let a = "Catalogue:\n"@;
    let b = catalogue(corpus);
    lemma_catalogued(corpus, i);
    text::lemma_told(a, b, x);
    text::lemma_told(a + b, "\nDesign the leaf folder paths for this collection.\n"@, x);
}

proof fn lemma_catalogued(corpus: Seq<DigestView>, i: int)
    requires
        0 <= i < corpus.len(),
    ensures
        text::contains_text(
            catalogue(corpus),
            corpus[i].title + " | "@ + corpus[i].game_system + " | "@ + corpus[i].doc_type + " | "@
                + corpus[i].setting,
        ),
    decreases corpus.len(),
{
    let d = corpus[i];
    let x = d.title + " | "@ + d.game_system + " | "@ + d.doc_type + " | "@ + d.setting;
    let front = catalogue(corpus.drop_last());
    let line = catalogue_line(corpus.last());
    if i < corpus.len() - 1 {
        lemma_catalogued(corpus.drop_last(), i);
    } else {
        lemma_catalogue_line(d);
        text::lemma_told("- "@, x, x);
        text::lemma_told("- "@ + x, "\n"@, x);
    }
    text::lemma_told(front, line, x);
}

proof fn lemma_catalogue_line(d: DigestView)
    ensures
        catalogue_line(d) == "- "@ + (d.title + " | "@ + d.game_system + " | "@ + d.doc_type + " | "@
            + d.setting) + "\n"@,
{
    let dash = "- "@;
    let bar = " | "@;
    let a = d.title + bar;
    let b = a + d.game_system;
    let c = b + bar;
    let e = c + d.doc_type;
    let f = e + bar;
    lemma_grouped(dash, d.title, bar);
    lemma_grouped(dash, a, d.game_system);
    lemma_grouped(dash, b, bar);
    lemma_grouped(dash, c, d.doc_type);
    lemma_grouped(dash, e, bar);
    lemma_grouped(dash, f, d.setting);
}

proof fn lemma_grouped(a: Seq<char>, b: Seq<char>, c: Seq<char>)
    ensures
        a + b + c == a + (b + c),
{
    assert(a + b + c =~= a + (b + c));
}

/// The grammar of a tree admits as many folders as the limit, and as many levels: one,
/// and further ones up to the limit.
pub proof fn a_tree_keeps_within_its_limits(max_leaves: nat, max_depth: nat)
    requires
        max_leaves > 0,
        max_depth > 0,
    ensures
        taxonomy_rules(max_leaves, max_depth)
            == "root ::= \"[\" ws (leaf (ws \",\" ws leaf){0,"@ + number::digits(
            (max_leaves - 1) as nat,
        ) + "})? ws \"]\"\nleaf ::= \"\\\"\" seg (\"/\" seg){0,"@ + number::digits(
            (max_depth - 1) as nat,
        ) + "} \"\\\"\"\nseg ::= [A-Za-z0-9&'()+.,! -]{1,40}\n"@ + PRIMITIVES@,
{
}

/// The levels that the grammar of headings admits are those below the limit, as far
/// as one digit goes.
pub proof fn heading_levels_stay_below_the_limit(max_level: nat)
    ensures
        max_level > 0 ==> top_level(max_level) < max_level,
        max_level == 0 ==> top_level(max_level) == 0,
        1 <= max_level <= 10 ==> top_level(max_level) == max_level - 1,
        top_level(max_level) <= 9,
{
}

} // verus!
