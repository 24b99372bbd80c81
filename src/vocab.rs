//! The vocabulary: the encoder document's map from symbol strings to token
//! ids, and its inverse.

use std::collections::HashMap;
use vstd::prelude::*;
use vstd::hash_map::StringHashMap;

verus! {

broadcast use vstd::std_specs::hash::group_hash_axioms;

#[verifier::external_type_specification]
#[verifier::external_body]
pub struct ExJsonError(serde_json::Error);

/// The map that the JSON text `s` denotes when read as an object from
/// strings to integers in `0..2^16` (a repeated key keeps its last value),
/// or `None` when it is no such object.
pub uninterp spec fn encoder_entries(s: Seq<char>) -> Option<Map<Seq<char>, u16>>;

/// The map of a list of entries.
pub open spec fn entry_map(v: Seq<(Seq<char>, u16)>) -> Map<Seq<char>, u16>
    decreases v.len(),
{
    if v.len() == 0 {
        Map::empty()
    } else {
        entry_map(v.drop_last()).insert(v.last().0, v.last().1)
    }
}

/// The views of a list of entries.
pub open spec fn entry_views(v: Seq<(String, u16)>) -> Seq<(Seq<char>, u16)> {
    v.map_values(|e: (String, u16)| (e.0@, e.1))
}

/// No key occurs twice.
pub open spec fn keys_distinct(v: Seq<(Seq<char>, u16)>) -> bool {
    forall|i: int, j: int| 0 <= i < j < v.len() ==> v[i].0 != v[j].0
}

/// No two symbols share a token id.
pub open spec fn ids_injective(m: Map<Seq<char>, u16>) -> bool {
    forall|s1: Seq<char>, s2: Seq<char>|
        #![trigger m[s1], m[s2]]
        m.contains_key(s1) && m.contains_key(s2) && m[s1] == m[s2] ==> s1 == s2
}

/// Whether two symbols have token id `id`.
pub open spec fn id_shared(m: Map<Seq<char>, u16>, id: u16) -> bool {
    exists|s1: Seq<char>, s2: Seq<char>|
        #![trigger m[s1], m[s2]]
        m.contains_key(s1) && m.contains_key(s2) && s1 != s2 && m[s1] == id && m[s2] == id
}

/// Whether some symbol has token id `id`.
pub open spec fn has_id(m: Map<Seq<char>, u16>, id: u16) -> bool {
    exists|s: Seq<char>| m.contains_key(s) && m[s] == id
}

/// The inverse vocabulary: each token id to its symbol.
pub open spec fn inverse(m: Map<Seq<char>, u16>) -> Map<u16, Seq<char>> {
    Map::new(|id: u16| has_id(m, id), |id: u16| choose|s: Seq<char>| m.contains_key(s) && m[s] == id)
}

/// Relies on `serde_json::from_str` into a `HashMap<String, u16>`: it
/// accepts a text exactly when it is a JSON object from strings to integers
/// that fit in `u16`, and the map it builds depends on the text alone. The
/// map's entries are handed out in its own order, each key once.
#[verifier::external_body]
fn parse_encoder_json(text: &str) -> (r: Result<Vec<(String, u16)>, serde_json::Error>)
    ensures
        r is Ok <==> encoder_entries(text@) is Some,
        r matches Ok(v) ==> keys_distinct(entry_views(v@)) && encoder_entries(text@) == Some(
            entry_map(entry_views(v@)),
        ),
{
    match serde_json::from_str::<HashMap<String, u16>>(text) {
        Ok(m) => Ok(m.into_iter().collect()),
        Err(e) => Err(e),
    }
}

/// Reads the encoder document `text` into its list of entries.
pub fn create_bpe_token_encoder(text: &str) -> (r: Option<Vec<(String, u16)>>)
    ensures
        r is Some <==> encoder_entries(text@) is Some,
        r matches Some(v) ==> keys_distinct(entry_views(v@)) && encoder_entries(text@) == Some(
            entry_map(entry_views(v@)),
        ),
{
    match parse_encoder_json(text) {
        Ok(v) => Some(v),
        Err(_) => None,
    }
}

proof fn lemma_entry_map(v: Seq<(Seq<char>, u16)>)
    requires
        keys_distinct(v),
    ensures
        forall|s: Seq<char>|
            #![trigger entry_map(v).contains_key(s)]
            entry_map(v).contains_key(s) <==> exists|k: int| 0 <= k < v.len() && v[k].0 == s,
        forall|k: int| 0 <= k < v.len() ==> #[trigger] entry_map(v)[v[k].0] == v[k].1,
    decreases v.len(),
{
    if v.len() > 0 {
        let u = v.drop_last();
        lemma_entry_map(u);
        assert forall|s: Seq<char>| entry_map(v).contains_key(s) implies exists|k: int|
            0 <= k < v.len() && v[k].0 == s by {
            if s != v.last().0 {
                assert(entry_map(u).contains_key(s));
                let k = choose|k: int| 0 <= k < u.len() && u[k].0 == s;
                assert(v[k].0 == s);
            }
        }
        assert forall|k: int| 0 <= k < v.len() implies #[trigger] entry_map(v)[v[k].0] == v[k].1 by {
            if k < v.len() - 1 {
                assert(u[k] == v[k]);
                assert(v[k].0 != v.last().0);
                assert(entry_map(u)[u[k].0] == u[k].1);
            }
        }
        assert forall|s: Seq<char>|
            (exists|k: int| 0 <= k < v.len() && v[k].0 == s) implies entry_map(v).contains_key(s) by {
            let k = choose|k: int| 0 <= k < v.len() && v[k].0 == s;
            if k < v.len() - 1 {
                assert(u[k] == v[k]);
                assert(entry_map(u).contains_key(s));
            }
        }
    }
}

/// The symbol-to-id table of a list of entries.
pub fn token_encoder_of(v: &Vec<(String, u16)>) -> (r: StringHashMap<u16>)
    ensures
        r@ == entry_map(entry_views(v@)),
{
    let mut m: StringHashMap<u16> = StringHashMap::new();
    let mut i: usize = 0;
    while i < v.len()
        invariant
            i <= v@.len(),
            m@ == entry_map(entry_views(v@).take(i as int)),
        decreases v@.len() - i,
    {
        m.insert(v[i].0.clone(), v[i].1);
        proof {
            assert(entry_views(v@).take(i + 1).drop_last() =~= entry_views(v@).take(i as int));
        }
        i = i + 1;
    }
    assert(entry_views(v@).take(i as int) =~= entry_views(v@));
    m
}

/// The views of an id-to-symbol table.
pub open spec fn decoder_view(d: Map<u16, String>) -> Map<u16, Seq<char>> {
    d.map_values(|s: String| s@)
}

/// The id-to-symbol table of a list of entries with distinct keys, or a
/// token id that two of them share.
pub fn create_bpe_token_decoder(v: &Vec<(String, u16)>) -> (r: Result<HashMap<u16, String>, u16>)
    requires
        keys_distinct(entry_views(v@)),
    ensures
        r is Ok <==> ids_injective(entry_map(entry_views(v@))),
        r matches Ok(d) ==> decoder_view(d@) == inverse(entry_map(entry_views(v@))),
        r matches Err(id) ==> id_shared(entry_map(entry_views(v@)), id),
{
    let ghost e = entry_views(v@);
    let ghost m = entry_map(e);
    proof {
        lemma_entry_map(e);
    }
    let mut d: HashMap<u16, String> = HashMap::new();
    let mut i: usize = 0;
    while i < v.len()
        invariant
            i <= v@.len(),
            e == entry_views(v@),
            m == entry_map(e),
            keys_distinct(e),
            forall|id: u16|
                #![trigger d@.contains_key(id)]
                d@.contains_key(id) <==> exists|k: int| 0 <= k < i && e[k].1 == id,
            forall|k: int| 0 <= k < i ==> (#[trigger] d@[e[k].1])@ == e[k].0,
        decreases v@.len() - i,
    {
        let id = v[i].1;
        proof {
            lemma_entry_map(e);
        }
        if d.contains_key(&id) {
            proof {
                let k = choose|k: int| 0 <= k < i && e[k].1 == id;
                assert(entry_map(e)[e[k].0] == e[k].1);
                assert(entry_map(e)[e[i as int].0] == e[i as int].1);
                assert(m.contains_key(e[k].0)) by {
                    assert(entry_map(e).contains_key(e[k].0));
                }
                assert(m.contains_key(e[i as int].0)) by {
                    assert(entry_map(e).contains_key(e[i as int].0));
                }
                assert(e[k].0 != e[i as int].0);
                assert(id_shared(m, id));
                assert(!ids_injective(m));
            }
            return Err(id);
        }
        d.insert(id, v[i].0.clone());
        proof {
            assert forall|id2: u16| #[trigger] d@.contains_key(id2) <==> exists|k: int|
                0 <= k < i + 1 && e[k].1 == id2 by {
                if id2 == id {
                    assert(e[i as int].1 == id);
                } else if d@.contains_key(id2) {
                    let k = choose|k: int| 0 <= k < i && e[k].1 == id2;
                    assert(0 <= k < i + 1 && e[k].1 == id2);
                }
            }
            assert forall|k: int| 0 <= k < i + 1 implies (#[trigger] d@[e[k].1])@ == e[k].0 by {
                if k < i {
                    assert(e[k].1 != id);
                }
            }
        }
        i = i + 1;
    }
    proof {
        lemma_entry_map(e);
        assert forall|s1: Seq<char>, s2: Seq<char>|
            #![trigger m[s1], m[s2]]
            m.contains_key(s1) && m.contains_key(s2) && m[s1] == m[s2] implies s1 == s2 by {
            let k1 = choose|k: int| 0 <= k < e.len() && e[k].0 == s1;
            let k2 = choose|k: int| 0 <= k < e.len() && e[k].0 == s2;
            assert(d@[e[k1].1]@ == s1);
            assert(d@[e[k2].1]@ == s2);
        }
        let inv = inverse(m);
        assert forall|id: u16| #[trigger] decoder_view(d@).contains_key(id) == inv.contains_key(id)
            && (inv.contains_key(id) ==> decoder_view(d@)[id] == inv[id]) by {
            if d@.contains_key(id) {
                let k = choose|k: int| 0 <= k < i && e[k].1 == id;
                assert(m.contains_key(e[k].0) && m[e[k].0] == id);
                let s = choose|s: Seq<char>| m.contains_key(s) && m[s] == id;
                assert(m[s] == m[e[k].0]);
            }
            if inv.contains_key(id) {
                let s = choose|s: Seq<char>| m.contains_key(s) && m[s] == id;
                let k = choose|k: int| 0 <= k < e.len() && e[k].0 == s;
                assert(d@.contains_key(e[k].1));
            }
        }
        assert(decoder_view(d@) =~= inv);
    }
    Ok(d)
}

} // verus!
