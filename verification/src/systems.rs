//! Canonical game-system names.
//!
//! The same system arrives spelled several ways: "D&D 5e", "D&D", "Dungeons &
//! Dragons". Left alone, each spelling competes for its own top-level folder.
//! Names are folded to one spelling before the taxonomy is designed.

use crate::table::TextMap;
use crate::text;
use crate::text::{lowercase, own, same, trim_text};
use vstd::prelude::*;

verus! {

/// The text pairs of a table.
pub open spec fn pair_texts(v: Seq<(&'static str, &'static str)>) -> Seq<(Seq<char>, Seq<char>)> {
    Seq::new(v.len(), |i: int| (v[i].0@, v[i].1@))
}

/// The value of the first pair with a key, if there is one.
pub open spec fn paired(table: Seq<(Seq<char>, Seq<char>)>, key: Seq<char>) -> Option<Seq<char>>
    decreases table.len(),
{
    if table.len() == 0 {
        None
    } else if table[0].0 == key {
        Some(table[0].1)
    } else {
        paired(table.drop_first(), key)
    }
}

/// Built-in aliases. Bare "D&D" and bare "Pathfinder" resolve to the edition
/// that dominates a typical collection.
pub open spec fn aliases() -> Seq<(Seq<char>, Seq<char>)> {
    seq![
        ("d&d"@, "D&D 5e"@),
        ("dnd"@, "D&D 5e"@),
        ("d&d 5e"@, "D&D 5e"@),
        ("d&d 5th edition"@, "D&D 5e"@),
        ("dungeons & dragons"@, "D&D 5e"@),
        ("dungeons and dragons"@, "D&D 5e"@),
        ("dungeons & dragons 5e"@, "D&D 5e"@),
        ("dungeons and dragons 5th edition"@, "D&D 5e"@),
        ("dungeons & dragons 5th edition"@, "D&D 5e"@),
        ("d&d 3.5e"@, "D&D 3.5e"@),
        ("d&d 3.5"@, "D&D 3.5e"@),
        ("d&d 4e"@, "D&D 4e"@),
        ("ad&d"@, "AD&D"@),
        ("pathfinder"@, "Pathfinder 1e"@),
        ("pathfinder 1e"@, "Pathfinder 1e"@),
        ("pathfinder 2e"@, "Pathfinder 2e"@),
        ("pathfinder second edition"@, "Pathfinder 2e"@),
        ("starfinder"@, "Starfinder"@),
        ("cyberpunk red"@, "Cyberpunk Red"@),
        ("cyberpunk 2020"@, "Cyberpunk 2020"@),
        ("call of cthulhu"@, "Call of Cthulhu"@),
        ("shadowrun"@, "Shadowrun"@),
        ("gurps"@, "GURPS"@),
        ("unknown"@, "System Neutral"@),
        ("system neutral"@, "System Neutral"@),
        ("systems neutral"@, "System Neutral"@),
        ("generic"@, "System Neutral"@),
        ("any"@, "System Neutral"@),
        ("n/a"@, "System Neutral"@),
        (""@, "System Neutral"@),
    ]
}

fn alias_table() -> (r: Vec<(&'static str, &'static str)>)
    ensures
        pair_texts(r@) == aliases(),
{
    let v: Vec<(&'static str, &'static str)> = vec![
        ("d&d", "D&D 5e"),
        ("dnd", "D&D 5e"),
        ("d&d 5e", "D&D 5e"),
        ("d&d 5th edition", "D&D 5e"),
        ("dungeons & dragons", "D&D 5e"),
        ("dungeons and dragons", "D&D 5e"),
        ("dungeons & dragons 5e", "D&D 5e"),
        ("dungeons and dragons 5th edition", "D&D 5e"),
        ("dungeons & dragons 5th edition", "D&D 5e"),
        ("d&d 3.5e", "D&D 3.5e"),
        ("d&d 3.5", "D&D 3.5e"),
        ("d&d 4e", "D&D 4e"),
        ("ad&d", "AD&D"),
        ("pathfinder", "Pathfinder 1e"),
        ("pathfinder 1e", "Pathfinder 1e"),
        ("pathfinder 2e", "Pathfinder 2e"),
        ("pathfinder second edition", "Pathfinder 2e"),
        ("starfinder", "Starfinder"),
        ("cyberpunk red", "Cyberpunk Red"),
        ("cyberpunk 2020", "Cyberpunk 2020"),
        ("call of cthulhu", "Call of Cthulhu"),
        ("shadowrun", "Shadowrun"),
        ("gurps", "GURPS"),
        ("unknown", "System Neutral"),
        ("system neutral", "System Neutral"),
        ("systems neutral", "System Neutral"),
        ("generic", "System Neutral"),
        ("any", "System Neutral"),
        ("n/a", "System Neutral"),
        ("", "System Neutral"),
    ];
    assert(pair_texts(v@) =~= aliases());
    v
}

/// The shelf for documents that name no system.
pub const NEUTRAL: &'static str = "System Neutral";

/// Find the value paired with a key.
fn find_pair(table: &Vec<(&'static str, &'static str)>, key: &str) -> (r: Option<&'static str>)
    ensures
        match r {
            Some(v) => paired(pair_texts(table@), key@) == Some(v@),
            None => paired(pair_texts(table@), key@) is None,
        },
{
    let ghost all = pair_texts(table@);
    let mut i: usize = 0;
    assert(all.skip(0) =~= all);
    while i < table.len()
        invariant
            i <= table@.len(),
            all == pair_texts(table@),
            paired(all, key@) == paired(all.skip(i as int), key@),
        decreases table@.len() - i,
    {
        let (alias, name) = table[i];
        assert(all.skip(i as int)[0] == (alias@, name@));
        if same(key, alias) {
            return Some(name);
        }
        assert(all.skip(i as int).drop_first() =~= all.skip(i + 1));
        i = i + 1;
    }
    None
}

/// The texts of an override table.
pub open spec fn override_texts(m: Map<Seq<char>, String>) -> Map<Seq<char>, Seq<char>> {
    Map::new(|k: Seq<char>| m.contains_key(k), |k: Seq<char>| m[k]@)
}

/// The canonical spelling of a name whose lower-case form is `key`.
pub open spec fn spelled(
    raw: Seq<char>,
    key: Seq<char>,
    overrides: Map<Seq<char>, Seq<char>>,
) -> Seq<char> {
    if overrides.contains_key(key) {
        overrides[key]
    } else {
        match paired(aliases(), key) {
            Some(name) => name,
            None => if text::trim(raw).len() == 0 {
                NEUTRAL@
            } else {
                text::trim(raw)
            },
        }
    }
}

/// The canonical spelling of a system name, given its lower-case form.
pub fn spell(raw: &str, key: &str, overrides: &TextMap<String>) -> (r: String)
    ensures
        r@ == spelled(raw@, key@, override_texts(overrides@)),
{
    if let Some(name) = overrides.get(key) {
        return name.clone();
    }
    if let Some(name) = find_pair(&alias_table(), key) {
        return own(name);
    }
    let tidied = trim_text(raw);
    if tidied.as_str().is_empty() {
        own(NEUTRAL)
    } else {
        tidied
    }
}

/// Fold one system name to its canonical spelling.
///
/// Unrecognised names are kept as the model wrote them, only tidied — a system
/// this table has never heard of is still a real system and deserves its
/// folder whether or not it was anticipated here.
pub fn canonical(raw: &str, overrides: &TextMap<String>) -> (r: String)
    ensures
        r@ == spelled(raw@, text::lowered(text::trim(raw@)), override_texts(overrides@)),
{
    let key = lowercase(trim_text(raw).as_str());
    spell(raw, key.as_str(), overrides)
}

/// An override decides, whatever the built-in table says.
pub proof fn overrides_win(
    raw: Seq<char>,
    key: Seq<char>,
    overrides: Map<Seq<char>, Seq<char>>,
)
    requires
        overrides.contains_key(key),
    ensures
        spelled(raw, key, overrides) == overrides[key],
{
}

/// A system nobody anticipated keeps its own name.
pub proof fn unanticipated_systems_keep_their_names(
    raw: Seq<char>,
    key: Seq<char>,
    overrides: Map<Seq<char>, Seq<char>>,
)
    requires
        !overrides.contains_key(key),
        paired(aliases(), key) is None,
        text::trim(raw).len() > 0,
    ensures
        spelled(raw, key, overrides) == text::trim(raw),
{
}

/// What a name is spelled like when nothing is overridden.
pub open spec fn respelled(raw: Seq<char>) -> Seq<char> {
    spelled(raw, text::lowered(text::trim(raw)), Map::empty())
}

/// The first pair with a key decides.
proof fn lemma_paired(table: Seq<(Seq<char>, Seq<char>)>, key: Seq<char>, i: int)
    requires
        0 <= i < table.len(),
        table[i].0 == key,
        forall|j: int| 0 <= j < i ==> (#[trigger] table[j]).0 != key,
    ensures
        paired(table, key) == Some(table[i].1),
    decreases i,
{
    if i > 0 {
        assert(table[0].0 != key);
        let rest = table.drop_first();
        assert forall|j: int| 0 <= j < i - 1 implies (#[trigger] rest[j]).0 != key by {
            assert(rest[j] == table[j + 1]);
        }
        lemma_paired(rest, key, i - 1);
    }
}

/// What is found is one of the values.
proof fn lemma_found(table: Seq<(Seq<char>, Seq<char>)>, key: Seq<char>)
    ensures
        paired(table, key) matches Some(v) ==> exists|i: int|
            0 <= i < table.len() && (#[trigger] table[i]).1 == v,
    decreases table.len(),
{
    if table.len() > 0 {
        let rest = table.drop_first();
        lemma_found(rest, key);
        if table[0].0 != key {
            if let Some(v) = paired(rest, key) {
                let i = choose|i: int| 0 <= i < rest.len() && (#[trigger] rest[i]).1 == v;
                assert(table[i + 1].1 == v);
            }
        }
    }
}

/// The places in the table at which a canonical name stands under itself.
spec fn names_itself(i: int) -> bool {
    i == 2 || i == 9 || i == 11 || i == 12 || i == 14 || i == 15 || i == 17 || i == 18 || i == 19 || i == 20 || i == 21 || i == 22 || i == 24
}

proof fn lemma_canonical_name(i: int)
    requires
        names_itself(i),
    ensures
        text::trim(aliases()[i].1) == aliases()[i].1,
        text::lowered(aliases()[i].1) == aliases()[i].0,
        paired(aliases(), aliases()[i].0) == Some(aliases()[i].1),
{
    reveal_strlit("d&d");
    reveal_strlit("dnd");
    reveal_strlit("d&d 5e");
    reveal_strlit("d&d 5th edition");
    reveal_strlit("dungeons & dragons");
    reveal_strlit("dungeons and dragons");
    reveal_strlit("dungeons & dragons 5e");
    reveal_strlit("dungeons and dragons 5th edition");
    reveal_strlit("dungeons & dragons 5th edition");
    reveal_strlit("d&d 3.5e");
    reveal_strlit("d&d 3.5");
    reveal_strlit("d&d 4e");
    reveal_strlit("ad&d");
    reveal_strlit("pathfinder");
    reveal_strlit("pathfinder 1e");
    reveal_strlit("pathfinder 2e");
    reveal_strlit("pathfinder second edition");
    reveal_strlit("starfinder");
    reveal_strlit("cyberpunk red");
    reveal_strlit("cyberpunk 2020");
    reveal_strlit("call of cthulhu");
    reveal_strlit("shadowrun");
    reveal_strlit("gurps");
    reveal_strlit("unknown");
    reveal_strlit("system neutral");
    reveal_strlit("systems neutral");
    reveal_strlit("generic");
    reveal_strlit("any");
    reveal_strlit("n/a");
    reveal_strlit("");
    reveal_strlit("D&D 5e");
    reveal_strlit("D&D 3.5e");
    reveal_strlit("D&D 4e");
    reveal_strlit("AD&D");
    reveal_strlit("Pathfinder 1e");
    reveal_strlit("Pathfinder 2e");
    reveal_strlit("Starfinder");
    reveal_strlit("Cyberpunk Red");
    reveal_strlit("Cyberpunk 2020");
    reveal_strlit("Call of Cthulhu");
    reveal_strlit("Shadowrun");
    reveal_strlit("GURPS");
    reveal_strlit("System Neutral");
    let all = aliases();
    if i == 2 {
        let key = "d&d 5e"@;
        assert forall|j: int| 0 <= j < 2 implies (#[trigger] all[j]).0 != key by {
            if all[j].0 == key {
                assert(all[j].0.len() == key.len());
            }
        }
        assert(text::lowered("D&D 5e"@) =~= key);
    } else if i == 9 {
        let key = "d&d 3.5e"@;
        assert forall|j: int| 0 <= j < 9 implies (#[trigger] all[j]).0 != key by {
            if all[j].0 == key {
                assert(all[j].0.len() == key.len());
            }
        }
        assert(text::lowered("D&D 3.5e"@) =~= key);
    } else if i == 11 {
        let key = "d&d 4e"@;
        assert forall|j: int| 0 <= j < 11 implies (#[trigger] all[j]).0 != key by {
            if all[j].0 == key {
                assert(all[j].0.len() == key.len());
                assert(all[j].0[4] == key[4]);
            }
        }
        assert(text::lowered("D&D 4e"@) =~= key);
    } else if i == 12 {
        let key = "ad&d"@;
        assert forall|j: int| 0 <= j < 12 implies (#[trigger] all[j]).0 != key by {
            if all[j].0 == key {
                assert(all[j].0.len() == key.len());
            }
        }
        assert(text::lowered("AD&D"@) =~= key);
    } else if i == 14 {
        let key = "pathfinder 1e"@;
        assert forall|j: int| 0 <= j < 14 implies (#[trigger] all[j]).0 != key by {
            if all[j].0 == key {
                assert(all[j].0.len() == key.len());
            }
        }
        assert(text::lowered("Pathfinder 1e"@) =~= key);
    } else if i == 15 {
        let key = "pathfinder 2e"@;
        assert forall|j: int| 0 <= j < 15 implies (#[trigger] all[j]).0 != key by {
            if all[j].0 == key {
                assert(all[j].0.len() == key.len());
                assert(all[j].0[11] == key[11]);
            }
        }
        assert(text::lowered("Pathfinder 2e"@) =~= key);
    } else if i == 17 {
        let key = "starfinder"@;
        assert forall|j: int| 0 <= j < 17 implies (#[trigger] all[j]).0 != key by {
            if all[j].0 == key {
                assert(all[j].0.len() == key.len());
                assert(all[j].0[0] == key[0]);
            }
        }
        assert(text::lowered("Starfinder"@) =~= key);
    } else if i == 18 {
        let key = "cyberpunk red"@;
        assert forall|j: int| 0 <= j < 18 implies (#[trigger] all[j]).0 != key by {
            if all[j].0 == key {
                assert(all[j].0.len() == key.len());
                assert(all[j].0[0] == key[0]);
            }
        }
        assert(text::lowered("Cyberpunk Red"@) =~= key);
    } else if i == 19 {
        let key = "cyberpunk 2020"@;
        assert forall|j: int| 0 <= j < 19 implies (#[trigger] all[j]).0 != key by {
            if all[j].0 == key {
                assert(all[j].0.len() == key.len());
            }
        }
        assert(text::lowered("Cyberpunk 2020"@) =~= key);
    } else if i == 20 {
        let key = "call of cthulhu"@;
        assert forall|j: int| 0 <= j < 20 implies (#[trigger] all[j]).0 != key by {
            if all[j].0 == key {
                assert(all[j].0.len() == key.len());
                assert(all[j].0[0] == key[0]);
            }
        }
        assert(text::lowered("Call of Cthulhu"@) =~= key);
    } else if i == 21 {
        let key = "shadowrun"@;
        assert forall|j: int| 0 <= j < 21 implies (#[trigger] all[j]).0 != key by {
            if all[j].0 == key {
                assert(all[j].0.len() == key.len());
            }
        }
        assert(text::lowered("Shadowrun"@) =~= key);
    } else if i == 22 {
        let key = "gurps"@;
        assert forall|j: int| 0 <= j < 22 implies (#[trigger] all[j]).0 != key by {
            if all[j].0 == key {
                assert(all[j].0.len() == key.len());
            }
        }
        assert(text::lowered("GURPS"@) =~= key);
    } else if i == 24 {
        let key = "system neutral"@;
        assert forall|j: int| 0 <= j < 24 implies (#[trigger] all[j]).0 != key by {
            if all[j].0 == key {
                assert(all[j].0.len() == key.len());
                assert(all[j].0[0] == key[0]);
            }
        }
        assert(text::lowered("System Neutral"@) =~= key);
    }
    lemma_paired(all, all[i].0, i);
    let name = all[i].1;
    text::lemma_leading(name, text::Class::White, 0);
    text::lemma_trailing(name, text::Class::White, 0);
    assert(text::trim(name) =~= name);
}

/// Every value of the table stands in it under itself.
proof fn lemma_value(k: int) -> (i: int)
    requires
        0 <= k < aliases().len(),
    ensures
        names_itself(i),
        aliases()[i].1 == aliases()[k].1,
{
    let all = aliases();
    if k <= 8 {
        2
    } else if k <= 10 {
        9
    } else if k <= 11 {
        11
    } else if k <= 12 {
        12
    } else if k <= 14 {
        14
    } else if k <= 16 {
        15
    } else if k <= 17 {
        17
    } else if k <= 18 {
        18
    } else if k <= 19 {
        19
    } else if k <= 20 {
        20
    } else if k <= 21 {
        21
    } else if k <= 22 {
        22
    } else {
        24
    }
}

/// Spelling a name twice changes nothing.
pub proof fn spelling_twice_changes_nothing(raw: Seq<char>)
    ensures
        respelled(respelled(raw)) == respelled(raw),
{
    let key = text::lowered(text::trim(raw));
    let r = respelled(raw);
    lemma_found(aliases(), key);
    match paired(aliases(), key) {
        Some(name) => {
            let k = choose|k: int| 0 <= k < aliases().len() && (#[trigger] aliases()[k]).1 == name;
            let i = lemma_value(k);
            lemma_canonical_name(i);
        },
        None => {
            if text::trim(raw).len() == 0 {
                lemma_canonical_name(24);
            } else {
                text::lemma_trimmed_facts(raw, text::Class::White);
                let t = text::trim(raw);
                text::lemma_leading(t, text::Class::White, 0);
                text::lemma_trailing(t, text::Class::White, 0);
                assert(text::trim(t) =~= t);
            }
        },
    }
}

/// Names that differ only in the case of their letters and in the white space
/// around them are spelled alike, if they are known.
pub proof fn spellings_of_one_system_fold(
    a: Seq<char>,
    b: Seq<char>,
    overrides: Map<Seq<char>, Seq<char>>,
)
    requires
        text::lowered(text::trim(a)) == text::lowered(text::trim(b)),
        overrides.contains_key(text::lowered(text::trim(a))) || paired(
            aliases(),
            text::lowered(text::trim(a)),
        ) is Some,
    ensures
        spelled(a, text::lowered(text::trim(a)), overrides) == spelled(
            b,
            text::lowered(text::trim(b)),
            overrides,
        ),
{
}

} // verus!
