//! Entity extraction from one fragment: a structured reply of the generation
//! capability when it gives one, else a deterministic scan for capitalised
//! terms.
use vstd::prelude::*;

use crate::document::Chunk;
use crate::graph::{Entity, EntityView, RelView, Relationship};
use crate::llm::{stub_reply, LLMEngine};
use crate::text::{chars_of, decimal, is_ascii_alnum, push_str, string_of};

verus! {

/// One entity record of a structured extraction reply.
#[derive(Debug, Clone)]
pub struct ExtractedEntity {
    pub name: String,
    pub entity_type: String,
    pub description: Option<String>,
}

/// One relationship record of a structured extraction reply.
#[derive(Debug, Clone)]
pub struct ExtractedRelationship {
    pub source: String,
    pub target: String,
    pub rel_type: String,
    pub description: Option<String>,
    /// The strength, as the bit pattern of an IEEE-754 single-precision number.
    pub strength_bits: Option<u32>,
}

/// The bit pattern of the single-precision number 1.0, the strength of a
/// relationship whose record gives none.
pub const DEFAULT_STRENGTH_BITS: u32 = 0x3f80_0000;

/// The most entities the fallback scan yields for one fragment.
pub const MAX_FALLBACK_TERMS: usize = 16;

/// Extracts entities and relationships from fragments.
#[derive(Debug, Clone)]
pub struct EntityExtractor {
    pub llm: LLMEngine,
}

/// `char::is_alphanumeric`.
pub uninterp spec fn unicode_alphanumeric(c: char) -> bool;

/// `char::is_uppercase`.
pub uninterp spec fn unicode_uppercase(c: char) -> bool;

/// Relies on char::is_alphanumeric: whether the character is alphabetic or
/// numeric in Unicode's tables; on ASCII, the letters and digits.
#[verifier::external_body]
fn is_alphanumeric(c: char) -> (r: bool)
    ensures
        r == unicode_alphanumeric(c),
        (c as u32) < 128 ==> r == is_ascii_alnum(c),
{
    c.is_alphanumeric()
}

/// Relies on char::is_uppercase: whether the character has Unicode's
/// Uppercase property; on ASCII, the letters `A` to `Z`.
#[verifier::external_body]
fn is_uppercase(c: char) -> (r: bool)
    ensures
        r == unicode_uppercase(c),
        (c as u32) < 128 ==> r == ('A' <= c && c <= 'Z'),
{
    c.is_uppercase()
}

/// The pieces of `s` between separators, empty ones included, as
/// `str::split` yields them, each with the position it starts at. Position
/// `i` is a separator where `alnum[i]` is false and the character is not `-`.
pub open spec fn split_pieces(s: Seq<char>, alnum: Seq<bool>) -> Seq<(int, Seq<char>)>
    decreases s.len(),
{
    if s.len() == 0 {
        seq![(0int, Seq::<char>::empty())]
    } else {
        let p = split_pieces(s.drop_last(), alnum);
        if !alnum[s.len() - 1] && s.last() != '-' {
            p.push((s.len() as int, Seq::<char>::empty()))
        } else {
            p.update(p.len() - 1, (p.last().0, p.last().1.push(s.last())))
        }
    }
}

/// A piece that names a term: longer than one byte in UTF-8 and starting at
/// a position flagged uppercase.
pub open spec fn is_term_at(piece: (int, Seq<char>), upper: Seq<bool>) -> bool {
    vstd::utf8::encode_utf8(piece.1).len() > 1 && upper[piece.0]
}

/// The terms among some pieces.
pub open spec fn terms_among(ps: Seq<(int, Seq<char>)>, upper: Seq<bool>) -> Set<Seq<char>> {
    Set::new(|t: Seq<char>| exists|k: int| 0 <= k < ps.len() && (#[trigger] ps[k]).1 == t && is_term_at(ps[k], upper))
}

/// The terms of `s` when position `i` is alphanumeric where `alnum[i]` and
/// uppercase where `upper[i]`.
pub open spec fn classified_terms(s: Seq<char>, alnum: Seq<bool>, upper: Seq<bool>) -> Set<Seq<char>> {
    terms_among(split_pieces(s, alnum), upper)
}

/// Which characters of `s` are alphanumeric.
pub open spec fn alnum_flags(s: Seq<char>) -> Seq<bool> {
    Seq::new(s.len(), |i: int| unicode_alphanumeric(s[i]))
}

/// Which characters of `s` are uppercase.
pub open spec fn upper_flags(s: Seq<char>) -> Seq<bool> {
    Seq::new(s.len(), |i: int| unicode_uppercase(s[i]))
}

/// The terms of a text, under Unicode's alphanumeric and uppercase classes.
pub open spec fn terms_of(s: Seq<char>) -> Set<Seq<char>> {
    classified_terms(s, alnum_flags(s), upper_flags(s))
}

/// Lexicographic order by character, which is the byte order of UTF-8.
pub open spec fn lex_lt(a: Seq<char>, b: Seq<char>) -> bool
    decreases a.len(),
{
    if a.len() == 0 {
        b.len() > 0
    } else if b.len() == 0 {
        false
    } else if a[0] != b[0] {
        a[0] < b[0]
    } else {
        lex_lt(a.skip(1), b.skip(1))
    }
}

pub open spec fn strictly_sorted(s: Seq<Seq<char>>) -> bool {
    forall|i: int| 0 <= i < s.len() - 1 ==> lex_lt(#[trigger] s[i], s[i + 1])
}

proof fn lemma_lex_total(a: Seq<char>, b: Seq<char>)
    requires
        !lex_lt(a, b),
        a != b,
    ensures
        lex_lt(b, a),
    decreases a.len(),
{
    if a.len() > 0 && b.len() > 0 && a[0] == b[0] {
        if a.skip(1) == b.skip(1) {
            assert(a =~= seq![a[0]] + a.skip(1));
            assert(b =~= seq![b[0]] + b.skip(1));
        }
        lemma_lex_total(a.skip(1), b.skip(1));
    } else if a.len() == 0 {
        assert(b.len() == 0);
        assert(a =~= b);
    }
}

fn lex_less(a: &Vec<char>, b: &Vec<char>) -> (r: bool)
    ensures
        r == lex_lt(a@, b@),
{
    let mut i: usize = 0;
    assert(a@.skip(0) =~= a@);
    assert(b@.skip(0) =~= b@);
    while i < a.len() && i < b.len() && a[i] == b[i]
        invariant
            i <= a.len(),
            i <= b.len(),
            a@.take(i as int) == b@.take(i as int),
            lex_lt(a@, b@) == lex_lt(a@.skip(i as int), b@.skip(i as int)),
        decreases a.len() - i,
    {
        proof {
            let x = a@.skip(i as int);
            let y = b@.skip(i as int);
            assert(x.skip(1) =~= a@.skip(i + 1));
            assert(y.skip(1) =~= b@.skip(i + 1));
            assert(a@.take(i + 1) =~= a@.take(i as int).push(a@[i as int]));
            assert(b@.take(i + 1) =~= b@.take(i as int).push(b@[i as int]));
        }
        i = i + 1;
    }
    let ghost x = a@.skip(i as int);
    let ghost y = b@.skip(i as int);
    if i == a.len() {
        assert(x.len() == 0);
        i < b.len()
    } else if i == b.len() {
        assert(y.len() == 0);
        false
    } else {
        assert(x[0] == a@[i as int]);
        assert(y[0] == b@[i as int]);
        a[i] < b[i]
    }
}

fn text_to_chars(s: &String) -> (r: Vec<char>)
    ensures
        r@ == s@,
{
    chars_of(s.as_str())
}

/// Inserts `t` into the strictly sorted `terms` unless it is there.
fn insert_sorted(terms: &mut Vec<String>, t: String)
    requires
        strictly_sorted(old(terms).deep_view()),
    ensures
        strictly_sorted(final(terms).deep_view()),
        final(terms).deep_view().to_set() == old(terms).deep_view().to_set().insert(t@),
{
    let tc = text_to_chars(&t);
    let ghost ts = terms.deep_view();
    let mut p: usize = 0;
    while p < terms.len()
        invariant
            ts == terms.deep_view(),
            tc@ == t@,
            strictly_sorted(ts),
            p <= terms.len(),
            forall|j: int| 0 <= j < p ==> lex_lt(#[trigger] ts[j], t@),
        ensures
            p <= terms.len(),
            forall|j: int| 0 <= j < p ==> lex_lt(#[trigger] ts[j], t@),
            p < terms.len() ==> !lex_lt(ts[p as int], t@),
        decreases terms.len() - p,
    {
        let cur = text_to_chars(&terms[p]);
        if !lex_less(&cur, &tc) {
            break;
        }
        p = p + 1;
    }
    if p < terms.len() {
        let cur = text_to_chars(&terms[p]);
        let ghost c = ts[p as int];
        assert(cur@ == c);
        if !lex_less(&tc, &cur) {
            proof {
                if c != t@ {
                    lemma_lex_total(c, t@);
                }
            }
            assert(ts.to_set().insert(t@) =~= ts.to_set()) by {
                assert(ts.contains(t@));
            }
            return;
        }
        proof {
            lemma_lex_irreflexive(c);
        }
        let ghost expected = ts.insert(p as int, t@);
        terms.insert(p, t);
        assert(terms.deep_view() =~= expected);
        assert(expected.to_set() =~= ts.to_set().insert(t@)) by {
            assert forall|x: Seq<char>| expected.to_set().contains(x) implies ts.to_set().insert(t@).contains(x) by {
                let k = choose|k: int| 0 <= k < expected.len() && expected[k] == x;
                if k < p {
                    assert(ts[k] == x);
                } else if k > p {
                    assert(ts[k - 1] == x);
                }
            }
            assert forall|x: Seq<char>| ts.to_set().insert(t@).contains(x) implies expected.to_set().contains(x) by {
                if x == t@ {
                    assert(expected[p as int] == x);
                } else {
                    let k = choose|k: int| 0 <= k < ts.len() && ts[k] == x;
                    if k < p {
                        assert(expected[k] == x);
                    } else {
                        assert(expected[k + 1] == x);
                    }
                }
            }
        }
    } else {
        let ghost expected = ts.push(t@);
        terms.push(t);
        assert(terms.deep_view() =~= expected);
        assert(expected.to_set() =~= ts.to_set().insert(t@)) by {
            assert forall|x: Seq<char>| expected.to_set().contains(x) implies ts.to_set().insert(t@).contains(x) by {
                let k = choose|k: int| 0 <= k < expected.len() && expected[k] == x;
                if k < ts.len() {
                    assert(ts[k] == x);
                }
            }
            assert forall|x: Seq<char>| ts.to_set().insert(t@).contains(x) implies expected.to_set().contains(x) by {
                if x == t@ {
                    assert(expected[ts.len() as int] == x);
                } else {
                    let k = choose|k: int| 0 <= k < ts.len() && ts[k] == x;
                    assert(expected[k] == x);
                }
            }
        }
    }
}

proof fn lemma_lex_irreflexive(a: Seq<char>)
    ensures
        !lex_lt(a, a),
    decreases a.len(),
{
    if a.len() > 0 {
        lemma_lex_irreflexive(a.skip(1));
    }
}

proof fn lemma_utf8_len(s: Seq<char>)
    ensures
        vstd::utf8::encode_utf8(s).len() >= s.len(),
        s.len() == 1 ==> (vstd::utf8::encode_utf8(s).len() > 1 <==> (s[0] as u32) > 0x7f),
    decreases s.len(),
{
    if s.len() > 0 {
        lemma_utf8_len(s.drop_first());
        if s.len() == 1 {
            assert(s.drop_first() =~= Seq::<char>::empty());
        }
    }
}

fn check_term(
    terms: &mut Vec<String>,
    cur: &Vec<char>,
    start: usize,
    upper: &Vec<bool>,
    Ghost(done): Ghost<Seq<(int, Seq<char>)>>,
)
    requires
        strictly_sorted(old(terms).deep_view()),
        old(terms).deep_view().to_set() == terms_among(done, upper@),
        cur@.len() > 0 ==> start < upper@.len(),
    ensures
        strictly_sorted(final(terms).deep_view()),
        final(terms).deep_view().to_set() == terms_among(done.push((start as int, cur@)), upper@),
{
    let ghost piece = (start as int, cur@);
    let ghost ps = done.push(piece);
    let st = string_of(cur);
    let wide = cur.len() >= 2 || (cur.len() == 1 && (cur[0] as u32) > 0x7f);
    let is_t = wide && upper[start];
    proof {
        lemma_utf8_len(cur@);
    }
    assert(is_t == is_term_at(piece, upper@));
    assert forall|t: Seq<char>| #[trigger] terms_among(ps, upper@).contains(t) <==> (terms_among(done, upper@).contains(t) || (t == cur@ && is_t)) by {
        if terms_among(ps, upper@).contains(t) {
            let k = choose|k: int| 0 <= k < ps.len() && (#[trigger] ps[k]).1 == t && is_term_at(ps[k], upper@);
            if k < done.len() {
                assert(ps[k] == done[k]);
            }
        }
        if terms_among(done, upper@).contains(t) {
            let k = choose|k: int| 0 <= k < done.len() && (#[trigger] done[k]).1 == t && is_term_at(done[k], upper@);
            assert(ps[k] == done[k]);
        }
        if t == cur@ && is_t {
            assert(ps[done.len() as int] == piece);
        }
    }
    if is_t {
        insert_sorted(terms, st);
        assert(terms_among(ps, upper@) =~= terms_among(done, upper@).insert(cur@));
    } else {
        assert(terms_among(ps, upper@) =~= terms_among(done, upper@));
    }
}

/// The distinct terms of `text` in lexicographic order, given which of its
/// characters are alphanumeric (`alnum`) and uppercase (`upper`): the pieces
/// between characters that are neither alphanumeric nor `-`, longer than one
/// byte, whose first character is uppercase.
pub fn capitalized_terms_given(text: &str, alnum: &Vec<bool>, upper: &Vec<bool>) -> (r: Vec<String>)
    requires
        alnum@.len() == text@.len(),
        upper@.len() == text@.len(),
    ensures
        strictly_sorted(r.deep_view()),
        r.deep_view().to_set() == classified_terms(text@, alnum@, upper@),
{
    let cs = chars_of(text);
    let mut terms: Vec<String> = Vec::new();
    let mut cur: Vec<char> = Vec::new();
    let mut start: usize = 0;
    let mut i: usize = 0;
    assert(text@.take(0) =~= Seq::<char>::empty());
    assert(terms.deep_view().to_set() =~= terms_among(Seq::empty(), upper@));
    assert(split_pieces(text@.take(0), alnum@).drop_last() =~= Seq::<(int, Seq<char>)>::empty());
    while i < cs.len()
        invariant
            cs@ == text@,
            alnum@.len() == text@.len(),
            upper@.len() == text@.len(),
            i <= cs.len(),
            start + cur@.len() == i,
            strictly_sorted(terms.deep_view()),
            split_pieces(text@.take(i as int), alnum@).len() >= 1,
            split_pieces(text@.take(i as int), alnum@).last() == (start as int, cur@),
            terms.deep_view().to_set() == terms_among(split_pieces(text@.take(i as int), alnum@).drop_last(), upper@),
        decreases cs.len() - i,
    {
        let ghost ps = split_pieces(text@.take(i as int), alnum@);
        assert(text@.take(i + 1).drop_last() =~= text@.take(i as int));
        let c = cs[i];
        if !alnum[i] && c != '-' {
            check_term(&mut terms, &cur, start, upper, Ghost(ps.drop_last()));
            assert(ps.drop_last().push((start as int, cur@)) =~= ps);
            cur = Vec::new();
            start = i + 1;
            assert(split_pieces(text@.take(i + 1), alnum@).drop_last() =~= ps);
        } else {
            cur.push(c);
            assert(split_pieces(text@.take(i + 1), alnum@).drop_last() =~= ps.drop_last());
        }
        i = i + 1;
    }
    let ghost ps = split_pieces(text@.take(i as int), alnum@);
    check_term(&mut terms, &cur, start, upper, Ghost(ps.drop_last()));
    assert(ps.drop_last().push((start as int, cur@)) =~= ps);
    assert(text@.take(i as int) =~= text@);
    terms
}

/// The distinct terms of `text` in lexicographic order, under Unicode's
/// alphanumeric and uppercase classes; see `capitalized_terms_given`.
pub fn collect_capitalized_terms(text: &str) -> (r: Vec<String>)
    ensures
        strictly_sorted(r.deep_view()),
        r.deep_view().to_set() == terms_of(text@),
{
    let cs = chars_of(text);
    let mut alnum: Vec<bool> = Vec::new();
    let mut upper: Vec<bool> = Vec::new();
    let mut i: usize = 0;
    while i < cs.len()
        invariant
            cs@ == text@,
            i <= cs.len(),
            alnum@ == alnum_flags(text@).take(i as int),
            upper@ == upper_flags(text@).take(i as int),
        decreases cs.len() - i,
    {
        alnum.push(is_alphanumeric(cs[i]));
        upper.push(is_uppercase(cs[i]));
        i = i + 1;
        assert(alnum@ =~= alnum_flags(text@).take(i as int));
        assert(upper@ =~= upper_flags(text@).take(i as int));
    }
    assert(alnum@ =~= alnum_flags(text@));
    assert(upper@ =~= upper_flags(text@));
    capitalized_terms_given(text, &alnum, &upper)
}

/// The entity records of a structured reply, each tagged with the fragment
/// `chunk_id`; a missing description becomes empty.
pub open spec fn record_entity(e: ExtractedEntity, chunk_id: Seq<char>) -> EntityView {
    EntityView {
        id: Seq::empty(),
        name: e.name@,
        entity_type: e.entity_type@,
        description: match e.description {
            Some(d) => d@,
            None => Seq::empty(),
        },
        source_chunks: seq![chunk_id],
    }
}

/// A relationship record; a missing description becomes empty and a
/// missing strength becomes 1.0.
pub open spec fn record_relationship(r: ExtractedRelationship) -> RelView {
    RelView {
        source: r.source@,
        target: r.target@,
        rel_type: r.rel_type@,
        description: match r.description {
            Some(d) => d@,
            None => Seq::empty(),
        },
        strength_bits: match r.strength_bits {
            Some(b) => b,
            None => DEFAULT_STRENGTH_BITS,
        },
    }
}

/// The entity the fallback scan makes of a term.
pub open spec fn term_entity(name: Seq<char>, chunk_id: Seq<char>) -> EntityView {
    EntityView {
        id: Seq::empty(),
        name: name,
        entity_type: "Concept"@,
        description: Seq::empty(),
        source_chunks: seq![chunk_id],
    }
}

fn text_or_empty(d: &Option<String>) -> (r: String)
    ensures
        r@ == match d {
            Some(s) => s@,
            None => Seq::<char>::empty(),
        },
{
    match d {
        Some(s) => s.clone(),
        None => String::new(),
    }
}

fn tagged(id: &String) -> (r: Vec<String>)
    ensures
        r.deep_view() == seq![id@],
{
    let mut v: Vec<String> = Vec::new();
    v.push(id.clone());
    assert(v.deep_view() =~= seq![id@]);
    v
}

/// The entities and relationships of decoded reply records.
pub fn from_records(
    entities: &Vec<ExtractedEntity>,
    relationships: &Vec<ExtractedRelationship>,
    chunk: &Chunk,
) -> (r: (Vec<Entity>, Vec<Relationship>))
    ensures
        r.0@.len() == entities@.len(),
        forall|i: int| 0 <= i < entities@.len() ==> (#[trigger] r.0@[i])@ == record_entity(entities@[i], chunk.id@),
        r.1@.len() == relationships@.len(),
        forall|i: int| 0 <= i < relationships@.len() ==> (#[trigger] r.1@[i])@ == record_relationship(relationships@[i]),
{
    let mut es: Vec<Entity> = Vec::new();
    let mut i: usize = 0;
    while i < entities.len()
        invariant
            i <= entities.len(),
            es@.len() == i,
            forall|j: int| 0 <= j < i ==> (#[trigger] es@[j])@ == record_entity(entities@[j], chunk.id@),
        decreases entities.len() - i,
    {
        let e = &entities[i];
        es.push(Entity {
            id: String::new(),
            name: e.name.clone(),
            entity_type: e.entity_type.clone(),
            description: text_or_empty(&e.description),
            source_chunks: tagged(&chunk.id),
        });
        i = i + 1;
    }
    let mut rs: Vec<Relationship> = Vec::new();
    let mut k: usize = 0;
    while k < relationships.len()
        invariant
            k <= relationships.len(),
            rs@.len() == k,
            forall|j: int| 0 <= j < k ==> (#[trigger] rs@[j])@ == record_relationship(relationships@[j]),
        decreases relationships.len() - k,
    {
        let r = &relationships[k];
        let strength_bits = match r.strength_bits {
            Some(b) => b,
            None => DEFAULT_STRENGTH_BITS,
        };
        rs.push(Relationship {
            source: r.source.clone(),
            target: r.target.clone(),
            rel_type: r.rel_type.clone(),
            description: text_or_empty(&r.description),
            strength_bits,
        });
        k = k + 1;
    }
    (es, rs)
}

/// `q` lists the terms of `text` without repeats in lexicographic order.
pub open spec fn sorted_terms(q: Seq<Seq<char>>, text: Seq<char>) -> bool {
    strictly_sorted(q) && q.to_set() == terms_of(text)
}

/// The fallback extraction of a fragment: one `Concept` entity for each of
/// the first sixteen terms of its text in lexicographic order, and no
/// relationships.
pub fn fallback_extraction(chunk: &Chunk) -> (r: (Vec<Entity>, Vec<Relationship>))
    ensures
        exists|q: Seq<Seq<char>>|
            #[trigger] sorted_terms(q, chunk.text@) && r.0@.len() == (if q.len() <= MAX_FALLBACK_TERMS {
                q.len() as int
            } else {
                MAX_FALLBACK_TERMS as int
            }) && forall|i: int| 0 <= i < r.0@.len() ==> (#[trigger] r.0@[i])@ == term_entity(q[i], chunk.id@),
        r.1@.len() == 0,
{
    let mut names = collect_capitalized_terms(chunk.text.as_str());
    let ghost q = names.deep_view();
    assert(sorted_terms(q, chunk.text@));
    names.truncate(MAX_FALLBACK_TERMS);
    let mut es: Vec<Entity> = Vec::new();
    let mut i: usize = 0;
    while i < names.len()
        invariant
            i <= names.len(),
            names.len() == (if q.len() <= MAX_FALLBACK_TERMS { q.len() as int } else { MAX_FALLBACK_TERMS as int }),
            forall|j: int| 0 <= j < names.len() ==> (#[trigger] names.deep_view()[j]) == q[j],
            es@.len() == i,
            forall|j: int| 0 <= j < i ==> (#[trigger] es@[j])@ == term_entity(q[j], chunk.id@),
        decreases names.len() - i,
    {
        proof {
            reveal_strlit("Concept");
        }
        let mut entity_type = String::new();
        push_str(&mut entity_type, "Concept");
        assert(entity_type@ =~= "Concept"@);
        es.push(Entity {
            id: String::new(),
            name: names[i].clone(),
            entity_type,
            description: String::new(),
            source_chunks: tagged(&chunk.id),
        });
        assert(names.deep_view()[i as int] == q[i as int]);
        i = i + 1;
    }
    (es, Vec::new())
}

/// The prompt sent to the generation capability for a fragment's text.
pub open spec fn extraction_prompt_text(text: Seq<char>) -> Seq<char> {
    "You are an entity extraction system. Extract entities and relationships.\nReturn strict JSON with fields: entities, relationships.\nentities: [{name, entity_type, description}]\nrelationships: [{source, target, rel_type, description, strength}]\nText: \n"@
        + text
}

/// The prompt asking for a structured extraction of `text`.
pub fn extraction_prompt(text: &str) -> (r: String)
    ensures
        r@ == extraction_prompt_text(text@),
{
    let mut p = String::new();
    push_str(
        &mut p,
        "You are an entity extraction system. Extract entities and relationships.\nReturn strict JSON with fields: entities, relationships.\nentities: [{name, entity_type, description}]\nrelationships: [{source, target, rel_type, description, strength}]\nText: \n",
    );
    push_str(&mut p, text);
    p
}

/// Position `i` holds the first `c` of `s`.
pub open spec fn first_of(s: Seq<char>, c: char, i: int) -> bool {
    0 <= i < s.len() && s[i] == c && forall|k: int| 0 <= k < i ==> s[k] != c
}

/// Position `j` holds the last `c` of `s`.
pub open spec fn last_of(s: Seq<char>, c: char, j: int) -> bool {
    0 <= j < s.len() && s[j] == c && forall|k: int| j < k < s.len() ==> s[k] != c
}

/// Whether `s` has a `{` with a `}` at or after it.
pub open spec fn has_payload(s: Seq<char>) -> bool {
    exists|i: int, j: int| first_of(s, '{', i) && last_of(s, '}', j) && i <= j
}

/// The text from the first `{` through the last `}` of `s`, if the last `}`
/// does not come before the first `{`.
pub open spec fn payload_of(s: Seq<char>) -> Option<Seq<char>> {
    if has_payload(s) {
        let (i, j) = choose|i: int, j: int| first_of(s, '{', i) && last_of(s, '}', j) && i <= j;
        Some(s.subrange(i, j + 1))
    } else {
        None
    }
}

/// The candidate structured payload of a reply: the text from its first `{`
/// through its last `}`.
pub fn json_candidate(text: &str) -> (r: Option<String>)
    ensures
        match r {
            Some(p) => payload_of(text@) == Some(p@),
            None => payload_of(text@) is None,
        },
{
    let cs = chars_of(text);
    let mut i: usize = 0;
    while i < cs.len() && cs[i] != '{'
        invariant
            cs@ == text@,
            i <= cs.len(),
            forall|k: int| 0 <= k < i ==> cs@[k] != '{',
        decreases cs.len() - i,
    {
        i = i + 1;
    }
    let mut j: usize = cs.len();
    while j > 0 && cs[j - 1] != '}'
        invariant
            cs@ == text@,
            j <= cs.len(),
            forall|k: int| j <= k < cs.len() ==> cs@[k] != '}',
        decreases j,
    {
        j = j - 1;
    }
    if i == cs.len() || j == 0 || j - 1 < i {
        assert forall|a: int, b: int| first_of(text@, '{', a) && last_of(text@, '}', b) implies b < a by {
            if i == cs.len() {
                assert(text@[a] == '{');
            } else if j == 0 {
                assert(text@[b] == '}');
            } else {
                assert(a == i);
                assert(b == j - 1);
            }
        }
        return None;
    }
    assert(first_of(text@, '{', i as int));
    assert(last_of(text@, '}', j - 1));
    assert(forall|a: int, b: int| first_of(text@, '{', a) && last_of(text@, '}', b) ==> a == i && b == j - 1);
    let mut out: Vec<char> = Vec::new();
    let mut k: usize = i;
    while k < j
        invariant
            cs@ == text@,
            i <= k <= j <= cs.len(),
            out@ == text@.subrange(i as int, k as int),
        decreases j - k,
    {
        out.push(cs[k]);
        k = k + 1;
        assert(out@ =~= text@.subrange(i as int, k as int));
    }
    Some(string_of(&out))
}

/// The outcome of extraction: the decoded records of a structured reply
/// when there are some, the fallback scan otherwise.
pub open spec fn extraction_outcome(
    decoded: Option<(Vec<ExtractedEntity>, Vec<ExtractedRelationship>)>,
    chunk: Chunk,
    r: (Vec<Entity>, Vec<Relationship>),
) -> bool {
    match decoded {
        Some((es, rs)) => {
            &&& r.0@.len() == es@.len()
            &&& forall|i: int| 0 <= i < es@.len() ==> (#[trigger] r.0@[i])@ == record_entity(es@[i], chunk.id@)
            &&& r.1@.len() == rs@.len()
            &&& forall|i: int| 0 <= i < rs@.len() ==> (#[trigger] r.1@[i])@ == record_relationship(rs@[i])
        },
        None => {
            &&& exists|q: Seq<Seq<char>>|
                #[trigger] sorted_terms(q, chunk.text@) && r.0@.len() == (if q.len() <= MAX_FALLBACK_TERMS {
                    q.len() as int
                } else {
                    MAX_FALLBACK_TERMS as int
                }) && forall|i: int| 0 <= i < r.0@.len() ==> (#[trigger] r.0@[i])@ == term_entity(q[i], chunk.id@)
            &&& r.1@.len() == 0
        },
    }
}

proof fn lemma_decimal_digits(n: nat)
    ensures
        forall|k: int| 0 <= k < decimal(n).len() ==> '0' <= #[trigger] decimal(n)[k] <= '9',
    decreases n,
{
    if n >= 10 {
        lemma_decimal_digits(n / 10);
        let d = decimal(n / 10);
        assert forall|k: int| 0 <= k < decimal(n).len() implies '0' <= #[trigger] decimal(n)[k] <= '9' by {
            if k < d.len() {
                assert(decimal(n)[k] == d[k]);
            }
        }
    }
}

/// The built-in backend's replies never hold a payload.
pub proof fn lemma_stub_reply_has_no_payload(prompt: Seq<char>)
    ensures
        payload_of(stub_reply(prompt)) is None,
{
    reveal_strlit("LLM(stub) response for prompt (");
    reveal_strlit(" chars).");
    let head = "LLM(stub) response for prompt ("@;
    let digits = decimal(prompt.len());
    let tail = " chars)."@;
    let s = stub_reply(prompt);
    lemma_decimal_digits(prompt.len());
    assert(s == head + digits + tail);
    assert forall|k: int| 0 <= k < s.len() implies #[trigger] s[k] != '{' by {
        if k < head.len() {
            assert(s[k] == head[k]);
        } else if k < head.len() + digits.len() {
            assert(s[k] == digits[k - head.len()]);
        } else {
            assert(s[k] == tail[k - head.len() - digits.len()]);
        }
    }
}

impl EntityExtractor {
    pub fn new(llm: LLMEngine) -> (r: EntityExtractor)
        ensures
            r.llm == llm,
    {
        EntityExtractor { llm }
    }

    /// Asks the generation capability for a structured extraction of the
    /// fragment and returns the candidate payload of its reply; `None` when
    /// generation fails or the reply holds no payload.
    pub fn request(&self, chunk: &Chunk) -> (r: Option<String>)
        ensures
            match r {
                Some(p) => payload_of(stub_reply(extraction_prompt_text(chunk.text@))) == Some(p@),
                None => payload_of(stub_reply(extraction_prompt_text(chunk.text@))) is None,
            },
    {
        let prompt = extraction_prompt(chunk.text.as_str());
        match self.llm.generate(prompt.as_str()) {
            Ok(reply) => json_candidate(reply.as_str()),
            Err(_) => None,
        }
    }

    /// Completes the extraction of a fragment from the records decoded out
    /// of the payload, or with the fallback scan when there are none.
    pub fn complete(
        &self,
        decoded: Option<(Vec<ExtractedEntity>, Vec<ExtractedRelationship>)>,
        chunk: &Chunk,
    ) -> (r: (Vec<Entity>, Vec<Relationship>))
        ensures
            extraction_outcome(decoded, *chunk, r),
    {
        match decoded {
            Some((es, rs)) => from_records(&es, &rs, chunk),
            None => fallback_extraction(chunk),
        }
    }

    /// Extracts the entities and relationships of one fragment. The
    /// generation capability is asked for a structured reply; `decode` turns
    /// the reply's payload into records. Without a payload, or where `decode`
    /// finds none, the fallback scan is used; the built-in backend's replies
    /// hold no payload, so with it every extraction is the fallback scan.
    pub fn extract<F>(&self, chunk: &Chunk, decode: F) -> (r: (Vec<Entity>, Vec<Relationship>))
        where
            F: Fn(&str) -> Option<(Vec<ExtractedEntity>, Vec<ExtractedRelationship>)>,
        requires
            forall|s: &str| decode.requires((s,)),
        ensures
            extraction_outcome(None, *chunk, r),
    {
        proof {
            lemma_stub_reply_has_no_payload(extraction_prompt_text(chunk.text@));
        }
        let decoded = match self.request(chunk) {
            Some(payload) => decode(payload.as_str()),
            None => None,
        };
        self.complete(decoded, chunk)
    }
}

} // verus!
