//! The recipe viewer's search box: which item a typed query roots the
//! production tree at.

use vstd::prelude::*;
use vstd::string::{StrSliceExecFns, StringExecFns, StringSliceAdditionalSpecFns};
use vstd::utf8::encode_utf8;
use crate::content::registry::{best_upto, ContentRegistry};
use crate::content::types::RuntimeItem;
use crate::relay::{trim, trim_text};
use crate::text::{contains_run, push_char, str_contains, str_starts_with};

verus! {

/// ASCII lower case of one character.
pub open spec fn lower(c: char) -> char {
    if 'A' <= c && c <= 'Z' {
        ((c as u32) + 32) as char
    } else {
        c
    }
}

/// ASCII lower case, as `str::to_ascii_lowercase` gives it.
pub open spec fn lower_text(s: Seq<char>) -> Seq<char> {
    s.map_values(|c: char| lower(c))
}

/// Lower-casing ASCII letters keeps a string's UTF-8 length.
pub proof fn lemma_lower_bytes(s: Seq<char>)
    ensures
        encode_utf8(lower_text(s)).len() == encode_utf8(s).len(),
    decreases s.len(),
{
    if s.len() > 0 {
        assert(lower_text(s)[0] == lower(s[0]));
        assert(lower_text(s).drop_first() =~= lower_text(s.drop_first()));
        lemma_lower_bytes(s.drop_first());
    }
}

/// `str::to_ascii_lowercase`.
pub fn lower_ascii(s: &str) -> (r: String)
    ensures
        r@ == lower_text(s@),
{
    let n = s.unicode_len();
    let mut r = String::new();
    let mut i: usize = 0;
    while i < n
        invariant
            n == s@.len(),
            i <= n,
            r@ == lower_text(s@.take(i as int)),
        decreases n - i,
    {
        let c = s.get_char(i);
        let l = if 'A' <= c && c <= 'Z' {
            let b: u8 = (c as u8) + 32;
            b as char
        } else {
            c
        };
        assert(l == lower(c)) by {
            if 'A' <= c && c <= 'Z' {
                assert((c as u8) as u32 == c as u32);
            }
        }
        push_char(&mut r, l);
        assert(r@ =~= lower_text(s@.take(i + 1)));
        i += 1;
    }
    assert(s@.take(n as int) =~= s@);
    r
}

/// `str::ends_with` with a `&str` pattern.
pub fn str_ends_with(s: &str, p: &str) -> (r: bool)
    ensures
        r == p@.is_suffix_of(s@),
{
    let n = s.unicode_len();
    let m = p.unicode_len();
    if m > n {
        return false;
    }
    let d = n - m;
    let mut i: usize = 0;
    while i < m
        invariant
            m == p@.len(),
            n == s@.len(),
            m <= n,
            d == n - m,
            i <= m,
            forall|j: int| 0 <= j < i ==> s@[d + j] == p@[j],
        decreases m - i,
    {
        if s.get_char(d + i) != p.get_char(i) {
            assert(s@.subrange(d as int, n as int)[i as int] != p@[i as int]);
            return false;
        }
        i += 1;
    }
    assert(p@ =~= s@.subrange(d as int, n as int));
    true
}

/// An item the query finds: its name, id or category (lower-cased) holds
/// the query, and it is craftable or a raw resource.
pub open spec fn search_hit(reg: &ContentRegistry, it: RuntimeItem, q: Seq<char>) -> bool {
    &&& contains_run(lower_text(it.name@), q) || contains_run(lower_text(it.id@), q) || contains_run(
        lower_text(it.category@),
        q,
    )
    &&& best_upto(reg.recipes@, it.index, reg.recipes.len() as int) is Some || "era1_raw_"@.is_prefix_of(it.id@)
}

/// How well an item fits the query: 50 when its name starts with the query
/// or its id ends with it, 20 more for a green name asked for as green, less
/// the name's length in bytes.
pub open spec fn search_score(it: RuntimeItem, q: Seq<char>) -> int {
    let name = lower_text(it.name@);
    (if q.is_prefix_of(name) || q.is_suffix_of(lower_text(it.id@)) { 50int } else { 0int }) + (if contains_run(
        name,
        "green"@,
    ) && contains_run(q, "green"@) {
        20int
    } else {
        0int
    }) - encode_utf8(name).len()
}

/// Best-scoring hit among the first `k` items, the earliest on ties, as
/// `(score, item index)`.
pub open spec fn search_best(reg: &ContentRegistry, q: Seq<char>, k: int) -> Option<(int, u16)>
    decreases k,
{
    if k <= 0 {
        None
    } else {
        let prev = search_best(reg, q, k - 1);
        let it = reg.items[k - 1];
        if search_hit(reg, it, q) && (match prev {
            None => true,
            Some(p) => search_score(it, q) > p.0,
        }) {
            Some((search_score(it, q), it.index))
        } else {
            prev
        }
    }
}

/// The first recipe with this id names its first output; otherwise an item
/// with this id names itself.
pub open spec fn exact_root(reg: &ContentRegistry, t: Seq<char>) -> Option<u16> {
    if exists|i: int| 0 <= i < reg.recipes.len() && reg.recipes[i].id@ == t {
        let i = choose|i: int|
            0 <= i < reg.recipes.len() && reg.recipes[i].id@ == t && forall|j: int|
                0 <= j < i ==> reg.recipes[j].id@ != t;
        if reg.recipes[i].outputs@.len() > 0 {
            Some(reg.recipes[i].outputs@[0])
        } else {
            None
        }
    } else if reg.has_item_id(t) {
        Some(reg.items[choose|i: int| 0 <= i < reg.items.len() && reg.items[i].id@ == t].index)
    } else {
        None
    }
}

/// The item a search roots the tree at, or none to keep the current root:
/// nothing for a blank query; else the best-scoring hit of the trimmed,
/// lower-cased query; else the exact recipe or item id.
pub open spec fn search_root(reg: &ContentRegistry, query: Seq<char>) -> Option<u16> {
    let t = trim(query);
    if t.len() == 0 {
        None
    } else {
        match search_best(reg, lower_text(t), reg.items.len() as int) {
            Some(b) => Some(b.1),
            None => exact_root(reg, t),
        }
    }
}

pub open spec fn best_view(b: Option<(i64, u16)>) -> Option<(int, u16)> {
    match b {
        Some(p) => Some((p.0 as int, p.1)),
        None => None,
    }
}

proof fn lemma_first_recipe(reg: &ContentRegistry, t: Seq<char>, i: int)
    requires
        reg.wf(),
        0 <= i < reg.recipes.len(),
        reg.recipes[i].id@ == t,
        forall|j: int| 0 <= j < i ==> reg.recipes[j].id@ != t,
    ensures
        i == choose|k: int|
            0 <= k < reg.recipes.len() && reg.recipes[k].id@ == t && forall|j: int|
                0 <= j < k ==> reg.recipes[j].id@ != t,
{
    let k = choose|k: int|
        0 <= k < reg.recipes.len() && reg.recipes[k].id@ == t && forall|j: int|
            0 <= j < k ==> reg.recipes[j].id@ != t;
    assert(0 <= k < reg.recipes.len() && reg.recipes[k].id@ == t && forall|j: int| 0 <= j < k ==> reg.recipes[j].id@ != t);
    if k < i {
        assert(reg.recipes[k].id@ != t);
    } else if i < k {
        assert(reg.recipes[i].id@ != t);
    }
}

fn exact_hit(reg: &ContentRegistry, t: &str) -> (r: Option<u16>)
    requires
        reg.wf(),
    ensures
        r == exact_root(reg, t@),
{
    match reg.recipe_by_str(t) {
        Some(rc) => {
            proof {
                let i = choose|i: int|
                    0 <= i < reg.recipes.len() && reg.recipes[i] == *rc && forall|j: int|
                        0 <= j < i ==> reg.recipes[j].id@ != t@;
                lemma_first_recipe(reg, t@, i);
            }
            if rc.outputs.len() > 0 {
                Some(rc.outputs[0])
            } else {
                None
            }
        },
        None => match reg.item_by_str(t) {
            Some(it) => {
                proof {
                    let k = choose|i: int| 0 <= i < reg.items.len() && reg.items[i].id@ == t@;
                    assert(reg.items[it.index as int].id@ == t@);
                    if k < it.index {
                        assert(reg.items[k].id@ != reg.items[it.index as int].id@);
                    } else if k > it.index {
                        assert(reg.items[it.index as int].id@ != reg.items[k].id@);
                    }
                }
                Some(it.index)
            },
            None => None,
        },
    }
}

/// Root item for a typed query in the recipe viewer, or `None` to keep the
/// current one.
pub fn best_search_match(reg: &ContentRegistry, query: &str) -> (r: Option<u16>)
    requires
        reg.wf(),
        forall|k: int| 0 <= k < reg.recipes.len() ==> #[trigger] reg.recipes[k].inputs@.len() <= 0x7fff_0000,
        forall|k: int| 0 <= k < reg.items.len() ==> encode_utf8(#[trigger] reg.items[k].name@).len() <= 0x7fff_0000,
    ensures
        r == search_root(reg, query@),
{
    let t = trim_text(query);
    if t.as_str().unicode_len() == 0 {
        return None;
    }
    let exact = exact_hit(reg, t.as_str());
    let q = lower_ascii(t.as_str());
    let mut best: Option<(i64, u16)> = None;
    let mut k: usize = 0;
    while k < reg.items.len()
        invariant
            reg.wf(),
            forall|j: int| 0 <= j < reg.recipes.len() ==> #[trigger] reg.recipes[j].inputs@.len() <= 0x7fff_0000,
            forall|j: int| 0 <= j < reg.items.len() ==> encode_utf8(#[trigger] reg.items[j].name@).len() <= 0x7fff_0000,
            k <= reg.items.len(),
            best_view(best) == search_best(reg, q@, k as int),
        decreases reg.items.len() - k,
    {
        let it = &reg.items[k];
        let name = lower_ascii(it.name.as_str());
        let id = lower_ascii(it.id.as_str());
        let cat = lower_ascii(it.category.as_str());
        let found = str_contains(name.as_str(), q.as_str()) || str_contains(id.as_str(), q.as_str())
            || str_contains(cat.as_str(), q.as_str());
        let hit = found && (reg.best_recipe_for_output(it.index).is_some() || str_starts_with(
            it.id.as_str(),
            "era1_raw_",
        ));
        if hit {
            let mut score: i64 = 0;
            if str_starts_with(name.as_str(), q.as_str()) || str_ends_with(id.as_str(), q.as_str()) {
                score = score + 50;
            }
            if str_contains(name.as_str(), "green") && str_contains(q.as_str(), "green") {
                score = score + 20;
            }
            proof {
                lemma_lower_bytes(it.name@);
            }
            let len = name.as_str().len();
            score = score - (len as i64);
            let better = match best {
                None => true,
                Some((s, _)) => score > s,
            };
            if better {
                best = Some((score, it.index));
            }
        }
        k += 1;
    }
    match best {
        Some((_, idx)) => Some(idx),
        None => exact,
    }
}

} // verus!
