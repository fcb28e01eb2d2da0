//! The handler catalog: browser records discovered from the OS application
//! registry, normalized by dropping this engine's own registration and by
//! collapsing entries that share a display name and command executable.

use vstd::prelude::*;
use crate::text::{first_token, first_token_str, str_eq};

verus! {

/// A discovered application able to open web URIs.  `id` is the stable
/// registry identifier; `command` is the raw command template as
/// registered; `is_pinned` is transient and filled in by the ranker.
pub struct Browser {
    pub name: String,
    pub command: String,
    pub icon: String,
    pub id: String,
    pub is_pinned: bool,
}

/// Mathematical image of a `Browser`.
pub struct BrowserView {
    pub name: Seq<char>,
    pub command: Seq<char>,
    pub icon: Seq<char>,
    pub id: Seq<char>,
    pub is_pinned: bool,
}

impl View for Browser {
    type V = BrowserView;

    open spec fn view(&self) -> BrowserView {
        BrowserView {
            name: self.name@,
            command: self.command@,
            icon: self.icon@,
            id: self.id@,
            is_pinned: self.is_pinned,
        }
    }
}

/// The views of a sequence of browsers.
pub open spec fn catalog_view(v: Seq<Browser>) -> Seq<BrowserView> {
    v.map_values(|b: Browser| b@)
}

/// The deduplication key of a registry entry: the display name together
/// with the first whitespace-delimited token of the command template.
/// Distinct sandboxed packages share a launcher executable but differ in
/// name, so neither component alone may serve as the key.
pub open spec fn dedup_key(b: BrowserView) -> (Seq<char>, Seq<char>) {
    (b.name, first_token(b.command))
}

/// The engine's own registration identifiers; the catalog never lists the
/// application itself as a handler.
pub open spec fn is_self_id(id: Seq<char>) -> bool {
    id == "com.opennav.app"@ || id == "com.opennav.app.desktop"@
}

/// The keys of the entries of `s`.
pub open spec fn key_set(s: Seq<BrowserView>) -> Set<(Seq<char>, Seq<char>)>
    decreases s.len(),
{
    if s.len() == 0 {
        Set::empty()
    } else {
        key_set(s.drop_last()).insert(dedup_key(s.last()))
    }
}

/// The normalized catalog: entries of `s` in order, skipping the engine's
/// own registration and every entry whose key was already taken.
pub open spec fn dedup_catalog(
    s: Seq<BrowserView>,
    seen: Set<(Seq<char>, Seq<char>)>,
) -> Seq<BrowserView>
    decreases s.len(),
{
    if s.len() == 0 {
        Seq::empty()
    } else if is_self_id(s[0].id) || seen.contains(dedup_key(s[0])) {
        dedup_catalog(s.drop_first(), seen)
    } else {
        seq![s[0]] + dedup_catalog(s.drop_first(), seen.insert(dedup_key(s[0])))
    }
}

pub proof fn lemma_key_set_contains(s: Seq<BrowserView>, k: (Seq<char>, Seq<char>))
    ensures
        key_set(s).contains(k) <==> exists|i: int| 0 <= i < s.len() && dedup_key(#[trigger] s[i]) == k,
    decreases s.len(),
{
    if s.len() > 0 {
        lemma_key_set_contains(s.drop_last(), k);
        if key_set(s).contains(k) {
            if dedup_key(s.last()) == k {
                assert(dedup_key(s[s.len() - 1]) == k);
            } else {
                let i = choose|i: int|
                    0 <= i < s.drop_last().len() && dedup_key(#[trigger] s.drop_last()[i]) == k;
                assert(dedup_key(s[i]) == k);
            }
        }
        if exists|i: int| 0 <= i < s.len() && dedup_key(#[trigger] s[i]) == k {
            let i = choose|i: int| 0 <= i < s.len() && dedup_key(#[trigger] s[i]) == k;
            if i < s.len() - 1 {
                assert(dedup_key(s.drop_last()[i]) == k);
            }
        }
    }
}

/// Whether some catalog entry already owns the key `(name, tok)`.
fn catalog_has_key(list: &Vec<Browser>, name: &str, tok: &str) -> (r: bool)
    ensures
        r == key_set(catalog_view(list@)).contains((name@, tok@)),
{
    let mut k: usize = 0;
    while k < list.len()
        invariant
            k <= list@.len(),
            forall|j: int| 0 <= j < k ==> dedup_key(#[trigger] catalog_view(list@)[j]) != (name@, tok@),
        decreases list@.len() - k,
    {
        let e = &list[k];
        proof {
            assert(*e == list@[k as int]);
        }
        let etok = first_token_str(e.command.as_str());
        if str_eq(e.name.as_str(), name) && str_eq(etok, tok) {
            proof {
                lemma_key_set_contains(catalog_view(list@), (name@, tok@));
                assert(catalog_view(list@)[k as int] == list@[k as int]@);
                assert(dedup_key(catalog_view(list@)[k as int]) == (name@, tok@));
            }
            return true;
        }
        proof {
            assert(catalog_view(list@)[k as int] == list@[k as int]@);
        }
        k = k + 1;
    }
    proof {
        lemma_key_set_contains(catalog_view(list@), (name@, tok@));
    }
    false
}

/// Whether `id` is one of the engine's own registration identifiers.
fn id_is_self(id: &str) -> (r: bool)
    ensures
        r == is_self_id(id@),
{
    str_eq(id, "com.opennav.app") || str_eq(id, "com.opennav.app.desktop")
}

/// Normalize a raw registry enumeration into the handler catalog: drop the
/// engine's own registration and collapse entries that share a display
/// name and command executable, keeping the first occurrence of each and
/// preserving the registry order otherwise.
pub fn dedupe_handlers(entries: &Vec<Browser>) -> (r: Vec<Browser>)
    ensures
        catalog_view(r@) == dedup_catalog(catalog_view(entries@), Set::empty()),
{
    let ghost full: Seq<BrowserView> = catalog_view(entries@);
    let mut out: Vec<Browser> = Vec::new();
    let mut i: usize = 0;
    proof {
        assert(full.skip(0) =~= full);
        assert(catalog_view(out@) + dedup_catalog(full, Set::empty())
            =~= dedup_catalog(full, Set::empty()));
    }
    while i < entries.len()
        invariant
            i <= entries@.len(),
            full == catalog_view(entries@),
            dedup_catalog(full, Set::empty()) == catalog_view(out@) + dedup_catalog(
                full.skip(i as int),
                key_set(catalog_view(out@)),
            ),
        decreases entries@.len() - i,
    {
        let ghost rest = full.skip(i as int);
        let ghost before = catalog_view(out@);
        let ghost seen = key_set(before);
        proof {
            assert(rest[0] == full[i as int]);
            assert(full[i as int] == entries@[i as int]@);
            assert(rest.drop_first() =~= full.skip(i + 1));
        }
        let e = &entries[i];
        proof {
            assert(*e == entries@[i as int]);
        }
        if id_is_self(e.id.as_str()) {
            proof {
                assert(is_self_id(rest[0].id));
                assert(dedup_catalog(rest, seen) == dedup_catalog(rest.drop_first(), seen));
            }
            i = i + 1;
        } else {
            let tok = first_token_str(e.command.as_str());
            proof {
                assert(dedup_key(rest[0]) == (e.name@, tok@));
            }
            if catalog_has_key(&out, e.name.as_str(), tok) {
                proof {
                    assert(seen.contains(dedup_key(rest[0])));
                    assert(dedup_catalog(rest, seen) == dedup_catalog(rest.drop_first(), seen));
                }
                i = i + 1;
            } else {
                let kept = Browser {
                    name: e.name.clone(),
                    command: e.command.clone(),
                    icon: e.icon.clone(),
                    id: e.id.clone(),
                    is_pinned: e.is_pinned,
                };
                proof {
                    assert(kept@ == full[i as int]);
                }
                out.push(kept);
                proof {
                    let ghost key = dedup_key(full[i as int]);
                    assert(dedup_catalog(rest, seen) == seq![rest[0]] + dedup_catalog(
                        rest.drop_first(),
                        seen.insert(key),
                    ));
                    assert(catalog_view(out@).drop_last() =~= before);
                    assert(catalog_view(out@).last() == full[i as int]);
                    assert(key_set(catalog_view(out@)) == seen.insert(key));
                    assert(before + (seq![full[i as int]] + dedup_catalog(
                        full.skip(i + 1),
                        seen.insert(key),
                    )) =~= catalog_view(out@) + dedup_catalog(full.skip(i + 1), seen.insert(key)));
                }
                i = i + 1;
            }
        }
    }
    proof {
        assert(full.skip(entries@.len() as int) =~= Seq::<BrowserView>::empty());
        assert(catalog_view(out@) + Seq::<BrowserView>::empty() =~= catalog_view(out@));
    }
    out
}

/// No two entries of the normalized catalog share a key, and no key was
/// taken by `seen` beforehand.
pub proof fn lemma_dedup_distinct_keys(s: Seq<BrowserView>, seen: Set<(Seq<char>, Seq<char>)>)
    ensures
        forall|i: int, j: int|
            0 <= i < j < dedup_catalog(s, seen).len() ==> dedup_key(
                #[trigger] dedup_catalog(s, seen)[i],
            ) != dedup_key(#[trigger] dedup_catalog(s, seen)[j]),
        forall|i: int|
            0 <= i < dedup_catalog(s, seen).len() ==> !seen.contains(
                dedup_key(#[trigger] dedup_catalog(s, seen)[i]),
            ),
    decreases s.len(),
{
    if s.len() > 0 {
        let d = dedup_catalog(s, seen);
        if is_self_id(s[0].id) || seen.contains(dedup_key(s[0])) {
            lemma_dedup_distinct_keys(s.drop_first(), seen);
            assert(d == dedup_catalog(s.drop_first(), seen));
        } else {
            let seen2 = seen.insert(dedup_key(s[0]));
            let tail = dedup_catalog(s.drop_first(), seen2);
            lemma_dedup_distinct_keys(s.drop_first(), seen2);
            assert(forall|i: int| 0 <= i < tail.len() ==> #[trigger] d[i + 1] == tail[i]);
            assert forall|i: int, j: int|
                0 <= i < j < d.len() implies dedup_key(#[trigger] d[i]) != dedup_key(
                #[trigger] d[j],
            ) by {
                assert(d[j] == tail[j - 1]);
                assert(!seen2.contains(dedup_key(tail[j - 1])));
                if i == 0 {
                    assert(dedup_key(d[0]) == dedup_key(s[0]));
                    assert(seen2.contains(dedup_key(s[0])));
                } else {
                    assert(d[i] == tail[i - 1]);
                }
            }
            assert forall|i: int| 0 <= i < d.len() implies !seen.contains(
                dedup_key(#[trigger] d[i]),
            ) by {
                if i > 0 {
                    assert(d[i] == tail[i - 1]);
                    assert(!seen2.contains(dedup_key(tail[i - 1])));
                }
            }
        }
    }
}

/// Every entry of the normalized catalog stems from the input and is not
/// the engine itself.
pub proof fn lemma_dedup_membership(s: Seq<BrowserView>, seen: Set<(Seq<char>, Seq<char>)>)
    ensures
        forall|i: int|
            0 <= i < dedup_catalog(s, seen).len() ==> s.contains(
                #[trigger] dedup_catalog(s, seen)[i],
            ) && !is_self_id(dedup_catalog(s, seen)[i].id),
    decreases s.len(),
{
    if s.len() > 0 {
        let d = dedup_catalog(s, seen);
        if is_self_id(s[0].id) || seen.contains(dedup_key(s[0])) {
            lemma_dedup_membership(s.drop_first(), seen);
            assert(d == dedup_catalog(s.drop_first(), seen));
            assert forall|i: int| 0 <= i < d.len() implies s.contains(#[trigger] d[i])
                && !is_self_id(d[i].id) by {
                assert(s.drop_first().contains(d[i]));
                let w = choose|w: int| 0 <= w < s.drop_first().len() && s.drop_first()[w] == d[i];
                assert(s[w + 1] == d[i]);
            }
        } else {
            let seen2 = seen.insert(dedup_key(s[0]));
            let tail = dedup_catalog(s.drop_first(), seen2);
            lemma_dedup_membership(s.drop_first(), seen2);
            assert(forall|i: int| 0 <= i < tail.len() ==> #[trigger] d[i + 1] == tail[i]);
            assert forall|i: int| 0 <= i < d.len() implies s.contains(#[trigger] d[i])
                && !is_self_id(d[i].id) by {
                if i == 0 {
                    assert(s[0] == d[0]);
                } else {
                    assert(d[i] == tail[i - 1]);
                    assert(s.drop_first().contains(tail[i - 1]));
                    let w = choose|w: int|
                        0 <= w < s.drop_first().len() && s.drop_first()[w] == tail[i - 1];
                    assert(s[w + 1] == d[i]);
                }
            }
        }
    }
}

/// Every input entry that is not the engine itself and whose key is not in
/// `seen` is represented in the normalized catalog by an entry with the
/// same key.
pub proof fn lemma_dedup_complete(s: Seq<BrowserView>, seen: Set<(Seq<char>, Seq<char>)>)
    ensures
        forall|i: int|
            0 <= i < s.len() && !is_self_id(#[trigger] s[i].id) && !seen.contains(dedup_key(s[i]))
                ==> exists|j: int|
                0 <= j < dedup_catalog(s, seen).len() && dedup_key(
                    #[trigger] dedup_catalog(s, seen)[j],
                ) == dedup_key(s[i]),
    decreases s.len(),
{
    if s.len() > 0 {
        let d = dedup_catalog(s, seen);
        if is_self_id(s[0].id) || seen.contains(dedup_key(s[0])) {
            lemma_dedup_complete(s.drop_first(), seen);
            assert forall|i: int|
                0 <= i < s.len() && !is_self_id(#[trigger] s[i].id) && !seen.contains(
                    dedup_key(s[i]),
                ) implies exists|j: int|
                0 <= j < d.len() && dedup_key(#[trigger] d[j]) == dedup_key(s[i]) by {
                assert(i >= 1);
                assert(s.drop_first()[i - 1] == s[i]);
            }
        } else {
            let seen2 = seen.insert(dedup_key(s[0]));
            let tail = dedup_catalog(s.drop_first(), seen2);
            lemma_dedup_complete(s.drop_first(), seen2);
            assert(dedup_key(d[0]) == dedup_key(s[0]));
            assert forall|i: int|
                1 <= i < s.len() && !is_self_id(#[trigger] s[i].id) && !seen.contains(
                    dedup_key(s[i]),
                ) implies exists|j: int|
                0 <= j < d.len() && dedup_key(#[trigger] d[j]) == dedup_key(s[i]) by {
                assert(s.drop_first()[i - 1] == s[i]);
                if dedup_key(s[i]) == dedup_key(s[0]) {
                    assert(dedup_key(d[0]) == dedup_key(s[i]));
                } else {
                    assert(!seen2.contains(dedup_key(s.drop_first()[i - 1])));
                    let j = choose|j: int|
                        0 <= j < tail.len() && dedup_key(#[trigger] tail[j]) == dedup_key(
                            s.drop_first()[i - 1],
                        );
                    assert(d[j + 1] == tail[j]);
                }
            }
        }
    }
}

} // verus!
